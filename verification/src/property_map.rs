//! The properties of one object: in order, and no key twice.

use vstd::hash_map::StringHashMap;
use vstd::prelude::*;
use crate::node::Node;

verus! {

/// The properties of one object, in the order in which they were inserted,
/// none of them under a key that another has.
///
/// `ordered_properties` holds the properties. Beside it `map` keeps, for
/// each key, the position of its property, so that a key which is already
/// there is found without a walk through the list. `keys` says, for the
/// proofs alone, under which key each property was inserted.
pub struct PropertyMap<'source> {
    pub ordered_properties: Vec<Node<'source>>,
    pub map: StringHashMap<usize>,
    pub keys: Ghost<Seq<Seq<char>>>,
}

impl<'source> PropertyMap<'source> {
    /// The properties, in the order in which they were inserted.
    pub open spec fn properties(self) -> Seq<Node<'source>> {
        self.ordered_properties@
    }

    /// The keys under which the properties were inserted, in their order.
    pub open spec fn keys(self) -> Seq<Seq<char>> {
        self.keys@
    }

    /// Whether the list and the map agree: each property has its key, no
    /// key occurs twice, and the map holds exactly the keys of the list,
    /// each with the position of its property.
    pub open spec fn wf(self) -> bool {
        &&& self.keys@.len() == self.ordered_properties@.len()
        &&& self.keys@.no_duplicates()
        &&& forall|key: Seq<char>| #[trigger]
            self.map@.contains_key(key) <==> self.keys@.contains(key)
        &&& forall|i: int|
            0 <= i < self.keys@.len() ==> #[trigger] self.map@[self.keys@[i]] == i
    }

    pub fn new() -> (properties: Self)
        ensures
            properties.wf(),
            properties.keys().no_duplicates(),
            properties.ordered_properties@ == Seq::<Node<'source>>::empty(),
            properties.keys() == Seq::<Seq<char>>::empty(),
    {
        Self {
            ordered_properties: Vec::new(),
            map: StringHashMap::new(),
            keys: Ghost(Seq::empty()),
        }
    }

    /// Hands the properties out, in the order in which they were inserted.
    pub fn into_properties(self) -> (properties: Vec<Node<'source>>)
        ensures
            properties == self.ordered_properties,
    {
        self.ordered_properties
    }

    /// Inserts `ast` under `key` behind the properties that are there, and
    /// gives its position. Where `key` is taken, nothing changes and there
    /// is no position.
    pub fn insert(&mut self, key: &'source str, ast: Node<'source>) -> (position: Option<usize>)
        requires
            old(self).wf(),
        ensures
            final(self).wf(),
            final(self).keys().no_duplicates(),
            final(self).keys().len() == final(self).properties().len(),
            old(self).keys().contains(key@) ==> position is None && *final(self) == *old(self),
            !old(self).keys().contains(key@) ==> {
                &&& position == Some(old(self).ordered_properties@.len() as usize)
                &&& final(self).ordered_properties@ == old(self).ordered_properties@.push(ast)
                &&& final(self).keys() == old(self).keys().push(key@)
            },
    {
        if self.map.contains_key(key) {
            None
        } else {
            let property_position = self.ordered_properties.len();
            self.ordered_properties.push(ast);
            self.map.insert(key.to_owned(), property_position);
            proof {
                let before = old(self).keys@;
                let after = before.push(key@);
                self.keys@ = after;
                assert forall|k: Seq<char>| #[trigger]
                    self.map@.contains_key(k) <==> after.contains(k) by {
                    if before.contains(k) {
                        let i = choose|i: int| 0 <= i < before.len() && before[i] == k;
                        assert(after[i] == k);
                    }
                    if k == key@ {
                        assert(after[before.len() as int] == k);
                    }
                }
                assert forall|i: int| 0 <= i < after.len() implies #[trigger] self.map@[after[i]]
                    == i by {
                    if i < before.len() {
                        assert(before.contains(before[i]));
                    }
                }
            }
            Some(property_position)
        }
    }
}

} // verus!
