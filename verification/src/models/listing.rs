use vstd::prelude::*;

verus! {

/// Identifies a listing across vendors by the SKUs of its variations.
#[derive(Debug, Hash, PartialEq, Eq)]
pub struct ListingDescriptor {
    pub sku: Vec<String>,
}

impl View for ListingDescriptor {
    type V = Seq<Seq<char>>;

    open spec fn view(&self) -> Seq<Seq<char>> {
        self.sku@.map_values(|s: String| s@)
    }
}

impl Clone for ListingDescriptor {
    fn clone(&self) -> (res: Self)
        ensures
            res@ == self@,
    {
        let mut sku: Vec<String> = Vec::new();
        let mut i: usize = 0;
        while i < self.sku.len()
            invariant
                i <= self.sku@.len(),
                sku@.len() == i,
                forall|j: int| 0 <= j < i ==> #[trigger] sku@[j]@ == self.sku@[j]@,
            decreases self.sku@.len() - i,
        {
            sku.push(self.sku[i].clone());
            i = i + 1;
        }
        let res = ListingDescriptor { sku };
        assert(res@ =~= self@);
        res
    }
}

/// A field of a listing whose value is tracked.
#[derive(Debug, Clone, Copy, Hash, PartialEq, Eq, Structural)]
pub enum ListingField {
    Title,
}

} // verus!
