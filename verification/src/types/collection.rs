use vstd::prelude::*;

verus! {

/// Zero, one or many values.  Handlers and the engine produce response
/// collections; keeping the empty and the singleton case out of the heap
/// lets the common paths compose without allocation.
#[derive(Clone, Debug, PartialEq, Eq)]
pub enum Collection<T> {
    Empty,
    One(T),
    Multiple(Vec<T>),
}

impl<T> View for Collection<T> {
    type V = Seq<T>;

    open spec fn view(&self) -> Seq<T> {
        match self {
            Collection::Empty => Seq::empty(),
            Collection::One(t) => seq![*t],
            Collection::Multiple(arr) => arr@,
        }
    }
}

impl<T> Collection<T> {
    /// Append one value behind the values already held: the law
    /// `r@ == self@.push(t)`, so composing pushes keeps production order.
    pub fn push(self, t: T) -> (r: Self)
        ensures
            r@ == self@.push(t),
            (r matches Collection::One(_)) <==> (self matches Collection::Empty),
            (r matches Collection::Multiple(_)) <==> !(self matches Collection::Empty),
    {
        let ghost sv = self@;
        match self {
            Collection::Empty => {
                let r = Collection::One(t);
                proof {
                    assert(r@ =~= sv.push(t));
                }
                r
            },
            Collection::One(t2) => {
                let r = Collection::Multiple(vec![t2, t]);
                proof {
                    assert(r@ =~= sv.push(t));
                }
                r
            },
            Collection::Multiple(mut arr) => {
                arr.push(t);
                Collection::Multiple(arr)
            },
        }
    }

    /// Concatenate two collections: the left operand's values first, then
    /// the right operand's, whatever their variants.
    pub fn merge(self, other: Self) -> (r: Self)
        ensures
            r@ == self@ + other@,
            (self matches Collection::Empty) ==> r == other,
            !(self matches Collection::Empty) && (other matches Collection::Empty) ==> r == self,
            !(self matches Collection::Empty) && !(other matches Collection::Empty) ==> (r
                matches Collection::Multiple(_)),
    {
        let ghost sv = self@;
        let ghost ov = other@;
        match (self, other) {
            (Collection::Empty, rhs) => {
                proof {
                    assert(rhs@ =~= sv + ov);
                }
                rhs
            },
            (lhs, Collection::Empty) => {
                proof {
                    assert(lhs@ =~= sv + ov);
                }
                lhs
            },
            (Collection::One(a), Collection::One(b)) => {
                let r = Collection::Multiple(vec![a, b]);
                proof {
                    assert(r@ =~= sv + ov);
                }
                r
            },
            (Collection::One(a), Collection::Multiple(mut rhs)) => {
                rhs.insert(0, a);
                let r = Collection::Multiple(rhs);
                proof {
                    assert(r@ =~= sv + ov);
                }
                r
            },
            (Collection::Multiple(mut lhs), Collection::One(b)) => {
                lhs.push(b);
                let r = Collection::Multiple(lhs);
                proof {
                    assert(r@ =~= sv + ov);
                }
                r
            },
            (Collection::Multiple(mut lhs), Collection::Multiple(mut rhs)) => {
                lhs.append(&mut rhs);
                let r = Collection::Multiple(lhs);
                proof {
                    assert(r@ =~= sv + ov);
                }
                r
            },
        }
    }

    /// Wrap a vector, turning an empty or a singleton vector into the
    /// matching lean variant.
    pub fn from_vec(mut arr: Vec<T>) -> (r: Self)
        ensures
            r@ == arr@,
            (r matches Collection::Empty) <==> arr@.len() == 0,
            (r matches Collection::One(_)) <==> arr@.len() == 1,
            (r matches Collection::Multiple(_)) <==> arr@.len() >= 2,
    {
        let ghost av = arr@;
        if arr.len() == 0 {
            proof {
                assert(Seq::<T>::empty() =~= av);
            }
            Collection::Empty
        } else if arr.len() == 1 {
            let t = arr.pop().unwrap();
            let r = Collection::One(t);
            proof {
                assert(r@ =~= av);
            }
            r
        } else {
            Collection::Multiple(arr)
        }
    }

    /// Unwrap into a vector.
    pub fn into_vec(self) -> (r: Vec<T>)
        ensures
            r@ == self@,
    {
        let ghost sv = self@;
        match self {
            Collection::Empty => {
                let r: Vec<T> = Vec::new();
                proof {
                    assert(r@ =~= sv);
                }
                r
            },
            Collection::One(t) => {
                let r = vec![t];
                proof {
                    assert(r@ =~= sv);
                }
                r
            },
            Collection::Multiple(arr) => arr,
        }
    }
}

} // verus!
