use vstd::prelude::*;

use crate::media::MediaInfo;

verus! {

/// The entries of a playlist with another path than `path`.
pub open spec fn others(list: Seq<MediaInfo>, path: Seq<char>) -> Seq<MediaInfo>
    decreases list.len(),
{
    if list.len() == 0 {
        Seq::empty()
    } else if list.last().path@ != path {
        others(list.drop_last(), path).push(list.last())
    } else {
        others(list.drop_last(), path)
    }
}

/// No two entries of a playlist share a path.
pub open spec fn paths_distinct(list: Seq<MediaInfo>) -> bool {
    forall|i: int, j: int| 0 <= i < j < list.len() ==> (#[trigger] list[i]).path@ != (#[trigger] list[j]).path@
}

/// Puts a file last in the playlist, dropping the entry it had there before.
pub fn remember(list: &mut Vec<MediaInfo>, media: MediaInfo)
    ensures
        final(list)@ == others(old(list)@, media.path@).push(media),
{
    let ghost orig = list@;
    let mut rest: Vec<MediaInfo> = Vec::new();
    std::mem::swap(list, &mut rest);
    let n = rest.len();
    let mut i: usize = 0;
    assert(orig.take(0) =~= Seq::<MediaInfo>::empty());
    assert(orig.skip(0) =~= orig);
    while i < n
        invariant
            n == orig.len(),
            0 <= i <= n,
            rest@ == orig.skip(i as int),
            list@ == others(orig.take(i as int), media.path@),
        decreases n - i,
    {
        let m = rest.remove(0);
        assert(orig.take(i + 1).drop_last() =~= orig.take(i as int));
        assert(m == orig[i as int]);
        assert(orig.take(i + 1).last() == m);
        assert(rest@ =~= orig.skip(i + 1));
        if !(m.path == media.path) {
            list.push(m);
        }
        i += 1;
    }
    assert(orig.take(n as int) =~= orig);
    list.push(media);
}

proof fn lemma_others_from(list: Seq<MediaInfo>, path: Seq<char>)
    ensures
        forall|i: int|
            #![trigger others(list, path)[i]]
            0 <= i < others(list, path).len() ==> others(list, path)[i].path@ != path && exists|j: int|
                0 <= j < list.len() && list[j] == others(list, path)[i],
    decreases list.len(),
{
    if list.len() > 0 {
        let rest = list.drop_last();
        lemma_others_from(rest, path);
        assert forall|i: int|
            #![trigger others(list, path)[i]]
            0 <= i < others(list, path).len() implies others(list, path)[i].path@ != path && exists|j: int|
                0 <= j < list.len() && list[j] == others(list, path)[i] by {
            if i < others(rest, path).len() {
                assert(others(list, path)[i] == others(rest, path)[i]);
                let x = others(rest, path)[i];
                let j = choose|j: int| 0 <= j < rest.len() && rest[j] == x;
                assert(list[j] == x);
            } else {
                assert(others(list, path)[i] == list.last());
                assert(list[list.len() - 1] == list.last());
            }
        }
    }
}

proof fn lemma_others_distinct(list: Seq<MediaInfo>, path: Seq<char>)
    requires
        paths_distinct(list),
    ensures
        paths_distinct(others(list, path)),
    decreases list.len(),
{
    if list.len() > 0 {
        let rest = list.drop_last();
        assert(paths_distinct(rest)) by {
            assert forall|i: int, j: int| 0 <= i < j < rest.len() implies (#[trigger] rest[i]).path@ != (#[trigger] rest[j]).path@ by {
                assert(rest[i] == list[i] && rest[j] == list[j]);
            }
        }
        lemma_others_distinct(rest, path);
        lemma_others_from(rest, path);
        let o = others(list, path);
        assert forall|i: int, j: int| 0 <= i < j < o.len() implies (#[trigger] o[i]).path@ != (#[trigger] o[j]).path@ by {
            if j < others(rest, path).len() {
                assert(o[i] == others(rest, path)[i] && o[j] == others(rest, path)[j]);
            } else {
                assert(o[j] == list.last());
                assert(o[i] == others(rest, path)[i]);
                let x = others(rest, path)[i];
                let q = choose|q: int| 0 <= q < rest.len() && rest[q] == x;
                assert(list[q] == x);
                assert(list[list.len() - 1] == list.last());
            }
        }
    }
}

/// Remembering a file keeps the paths of a playlist distinct: the file
/// appears once, last.
pub proof fn law_remember_keeps_paths_distinct(list: Seq<MediaInfo>, media: MediaInfo)
    requires
        paths_distinct(list),
    ensures
        paths_distinct(others(list, media.path@).push(media)),
{
    lemma_others_distinct(list, media.path@);
    lemma_others_from(list, media.path@);
    let o = others(list, media.path@);
    let r = o.push(media);
    assert forall|i: int, j: int| 0 <= i < j < r.len() implies (#[trigger] r[i]).path@ != (#[trigger] r[j]).path@ by {
        assert(r[i] == o[i]);
        if j < o.len() {
            assert(r[j] == o[j]);
        }
    }
}

} // verus!
