//! Directory discovery's deterministic half: given the chain of ancestor
//! directories of the working directory (nearest first) and, for each,
//! whether it carries a store-root marker, keep exactly the marked ones in
//! order. Asking the filesystem which ancestors are marked stays with the
//! caller; finding none is an ordinary empty result, not an error.
use vstd::prelude::*;

verus! {

/// The images of a sequence of strings.
pub open spec fn str_views(s: Seq<String>) -> Seq<Seq<char>> {
    s.map_values(|x: String| x@)
}

/// The marked candidates, in the order given.
pub open spec fn marked_dirs(dirs: Seq<Seq<char>>, marked: Seq<bool>) -> Seq<Seq<char>>
    decreases dirs.len(),
{
    if dirs.len() == 0 || marked.len() == 0 {
        Seq::empty()
    } else {
        marked_dirs(dirs.drop_last(), marked.drop_last()) + (if marked.last() {
            seq![dirs.last()]
        } else {
            Seq::empty()
        })
    }
}

/// Keeps the candidate directories that carry a store marker, nearest
/// first.
#[verifier::loop_isolation(false)]
pub fn discover_roots(dirs: &Vec<String>, marked: &Vec<bool>) -> (r: Vec<String>)
    requires
        dirs@.len() == marked@.len(),
    ensures
        str_views(r@) == marked_dirs(str_views(dirs@), marked@),
{
    let ghost dv = str_views(dirs@);
    let mut r: Vec<String> = Vec::new();
    let mut i: usize = 0;
    proof {
        assert(dv.take(0) =~= Seq::<Seq<char>>::empty());
        assert(marked@.take(0) =~= Seq::<bool>::empty());
        assert(str_views(r@) =~= marked_dirs(dv.take(0), marked@.take(0)));
    }
    while i < dirs.len()
        invariant
            i <= dirs@.len(),
            str_views(r@) == marked_dirs(dv.take(i as int), marked@.take(i as int)),
        decreases dirs@.len() - i,
    {
        proof {
            assert(dv.take(i as int + 1).drop_last() =~= dv.take(i as int));
            assert(marked@.take(i as int + 1).drop_last() =~= marked@.take(i as int));
            assert(dv.take(i as int + 1).last() == dv[i as int]);
            assert(marked@.take(i as int + 1).last() == marked@[i as int]);
            assert(dv[i as int] == dirs@[i as int]@);
        }
        if marked[i] {
            let d = dirs[i].clone();
            let ghost prev = r@;
            r.push(d);
            proof {
                let f = |x: String| x@;
                prev.lemma_push_map_commute(f, d);
                assert(str_views(r@) =~= marked_dirs(
                    dv.take(i as int + 1),
                    marked@.take(i as int + 1),
                ));
            }
        } else {
            proof {
                assert(str_views(r@) =~= marked_dirs(
                    dv.take(i as int + 1),
                    marked@.take(i as int + 1),
                ));
            }
        }
        i = i + 1;
    }
    proof {
        assert(dv.take(dv.len() as int) =~= dv);
        assert(marked@.take(marked@.len() as int) =~= marked@);
    }
    r
}

} // verus!
