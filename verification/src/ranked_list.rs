use crate::error::RboError;
use vstd::hash_set::StringHashSet;
use vstd::prelude::*;

verus! {

/// Whether some identifier occurs more than once in `list`.
///
/// The answer depends only on which identifiers occur and how many there are,
/// not on where the repeats stand: the distinct identifiers are collected into
/// a set and their number is compared with the length of the list.
pub fn contains_dups(list: &[String]) -> (dup: bool)
    ensures
        dup == !list.deep_view().no_duplicates(),
{
    let ghost ids = list.deep_view();
    let mut id_set = StringHashSet::new();
    let mut i: usize = 0;
    while i < list.len()
        invariant
            i <= list.len(),
            ids == list.deep_view(),
            id_set@ == ids.take(i as int).to_set(),
        decreases list.len() - i,
    {
        id_set.insert(list[i].clone());
        proof {
            assert(ids.take(i + 1) =~= ids.take(i as int).push(ids[i as int]));
            ids.take(i as int).lemma_push_to_set_commute(ids[i as int]);
        }
        i += 1;
    }
    proof {
        assert(ids.take(i as int) =~= ids);
        if ids.no_duplicates() {
            ids.unique_seq_to_set();
        }
        if ids.to_set().len() == ids.len() {
            ids.lemma_no_dup_set_cardinality();
        }
    }
    id_set.len() != list.len()
}

/// One ranking: identifiers in rank order, the top rank first, none of them
/// occurring twice.
#[derive(Debug)]
pub struct RankedList {
    elements: Vec<String>,
}

impl View for RankedList {
    type V = Seq<Seq<char>>;

    /// The identifiers in rank order.
    closed spec fn view(&self) -> Seq<Seq<char>> {
        self.elements.deep_view()
    }
}

impl RankedList {
    #[verifier::type_invariant]
    spec fn distinct(&self) -> bool {
        self.elements.deep_view().no_duplicates()
    }

    /// Makes a ranking of `elements`, kept in the order given. Identifiers are
    /// compared exactly as written; the empty ranking is valid. A list that
    /// repeats an identifier is refused.
    pub fn new(elements: Vec<String>) -> (made: Result<RankedList, RboError>)
        ensures
            made is Ok <==> elements.deep_view().no_duplicates(),
            made is Ok ==> made->Ok_0@ == elements.deep_view(),
            made is Err ==> made->Err_0 == RboError::DuplicateIdentifier,
    {
        if contains_dups(elements.as_slice()) {
            return Err(RboError::DuplicateIdentifier);
        }
        Ok(RankedList { elements })
    }

    /// The number of ranked identifiers.
    pub fn len(&self) -> (n: usize)
        ensures
            n == self@.len(),
    {
        self.elements.len()
    }

    /// Whether the ranking holds no identifier at all.
    pub fn is_empty(&self) -> (empty: bool)
        ensures
            empty == (self@.len() == 0),
    {
        self.elements.len() == 0
    }

    /// The identifiers in rank order, none of them repeated.
    pub fn elements(&self) -> (ids: &[String])
        ensures
            ids.deep_view() == self@,
            self@.no_duplicates(),
    {
        proof {
            use_type_invariant(self);
        }
        let ids = self.elements.as_slice();
        assert(ids.deep_view() =~= self.elements.deep_view());
        ids
    }
}

} // verus!
