//! Orphan reconciler: after a full resync, thread files the run never
//! touched are removed from the primary conversation directory.

#![verifier::loop_isolation(false)]

use vstd::prelude::*;

use crate::merge::is_md_name;
use crate::types::{str_in, strs};

verus! {

/// The files a full resync deletes: every `.md` file not in the touched
/// set.  Other files are never deleted.
pub open spec fn orphan_spec(names: Seq<Seq<char>>, touched: Seq<Seq<char>>) -> Seq<Seq<char>>
    decreases names.len(),
{
    if names.len() == 0 {
        Seq::empty()
    } else {
        orphan_spec(names.drop_last(), touched) + if is_md_name(names.last()) && !str_in(
            touched,
            names.last(),
        ) {
            seq![names.last()]
        } else {
            Seq::empty()
        }
    }
}

/// The names to delete during orphan cleanup, in directory order.
pub fn cleanup_orphans(names: &Vec<String>, touched: &Vec<String>) -> (r: Vec<String>)
    ensures
        strs(r@) == orphan_spec(strs(names@), strs(touched@)),
{
    let mut r: Vec<String> = Vec::new();
    let n = names.len();
    let mut i: usize = 0;
    proof {
        assert(strs(names@).subrange(0, 0) =~= Seq::<Seq<char>>::empty());
        assert(strs(r@) =~= Seq::<Seq<char>>::empty());
        assert(orphan_spec(Seq::<Seq<char>>::empty(), strs(touched@)) =~= Seq::<Seq<char>>::empty());
    }
    while i < n
        invariant
            0 <= i <= n,
            n == names.len(),
            strs(r@) == orphan_spec(strs(names@).subrange(0, i as int), strs(touched@)),
        decreases n - i,
    {
        proof {
            assert(strs(names@).subrange(0, i + 1 as int).drop_last() =~= strs(names@).subrange(
                0,
                i as int,
            ));
            assert(strs(names@).subrange(0, i + 1 as int).last() == strs(names@)[i as int]);
        }
        let ghost old_strs = strs(r@);
        if crate::merge::is_md_name_str(names[i].as_str()) && !crate::types::contains_str(
            touched,
            names[i].as_str(),
        ) {
            r.push(names[i].clone());
            proof {
                assert(strs(r@) =~= old_strs + seq![strs(names@)[i as int]]);
            }
        } else {
            proof {
                assert(strs(r@) =~= old_strs + Seq::<Seq<char>>::empty());
            }
        }
        i = i + 1;
    }
    proof {
        assert(strs(names@).subrange(0, n as int) =~= strs(names@));
    }
    r
}

} // verus!
