use vstd::prelude::*;

use crate::shared::{PredSym, PredSymV};

verus! {

/// Types that mention predicate symbols.
pub trait PredSymsOf {
    /// The predicate symbols the value mentions.
    spec fn pred_syms(&self) -> Set<PredSymV>;

    /// Collect the predicate symbols the value mentions.
    fn pred_syms_of(&self) -> (r: Vec<PredSym>)
        ensures
            r.deep_view().to_set() == self.pred_syms(),
    ;
}

} // verus!
