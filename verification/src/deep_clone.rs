//! Copies that are known to hold the same contents as their source.
use vstd::prelude::*;

verus! {

/// The deep views of the elements of `s`, in order (for a `Vec`, what `deep_view`
/// gives of it).
pub open spec fn deep_seq<T: DeepView>(s: Seq<T>) -> Seq<T::V> {
    Seq::new(s.len(), |i: int| s[i].deep_view())
}

/// `deep_seq` of the sequence in an option.
pub open spec fn opt_deep_seq<T: DeepView>(o: Option<Seq<T>>) -> Option<Seq<T::V>> {
    match o {
        Some(s) => Some(deep_seq(s)),
        None => None,
    }
}

/// A copy whose deep view equals the deep view of the source.
pub trait DeepClone: DeepView + Sized {
    fn deep_clone(&self) -> (r: Self)
        ensures
            r.deep_view() == self.deep_view(),
    ;
}

impl DeepClone for String {
    fn deep_clone(&self) -> (r: Self) {
        self.clone()
    }
}

impl DeepClone for bool {
    fn deep_clone(&self) -> (r: Self) {
        *self
    }
}

impl DeepClone for i32 {
    fn deep_clone(&self) -> (r: Self) {
        *self
    }
}

impl DeepClone for u32 {
    fn deep_clone(&self) -> (r: Self) {
        *self
    }
}

impl<T: DeepClone> DeepClone for Option<T> {
    fn deep_clone(&self) -> (r: Self) {
        match self {
            Some(x) => Some(x.deep_clone()),
            None => None,
        }
    }
}

impl<T: DeepClone> DeepClone for Vec<T> {
    fn deep_clone(&self) -> (r: Self) {
        let mut r: Vec<T> = Vec::new();
        let mut i: usize = 0;
        while i < self.len()
            invariant
                i <= self.len(),
                r.len() == i,
                forall|j: int| 0 <= j < i ==> (#[trigger] r@[j]).deep_view() == self@[j].deep_view(),
            decreases self.len() - i,
        {
            r.push(self[i].deep_clone());
            i = i + 1;
        }
        assert(r.deep_view() =~= self.deep_view());
        r
    }
}

impl<A: DeepClone, B: DeepClone> DeepClone for (A, B) {
    fn deep_clone(&self) -> (r: Self) {
        (self.0.deep_clone(), self.1.deep_clone())
    }
}

} // verus!
