//! The tree that a text is parsed into, and the value that it stands for.

use crate::text::same_text;
use vstd::prelude::*;

verus! {

/// The mathematical value that a parsed tree stands for.
pub ghost enum JsonValue {
    Null,
    True,
    False,
    Number(nat),
    String(Seq<char>),
    Array(Seq<JsonValue>),
    Object(Map<Seq<char>, JsonValue>),
}

/// A parsed JSON value: a complete tree that owns all of its children.
#[derive(Debug)]
pub enum Json {
    Null,
    True,
    False,
    /// A non-negative integer.
    Number(u32),
    /// The characters between the quotes, as they stood in the input.
    String(String),
    /// The elements in the order of the input.
    Array(Vec<Json>),
    Object(Object),
}

/// One `key: value` pair of an object.
#[derive(Debug)]
struct Member {
    key: String,
    value: Json,
}

/// A mapping from keys to values in which no key occurs twice.
#[derive(Debug)]
pub struct Object {
    members: Vec<Member>,
}

/// The mapping that a list of members stands for: a later member replaces an
/// earlier one with the same key.
spec fn members_view(members: Seq<Member>) -> Map<Seq<char>, JsonValue>
    decreases members,
{
    if members.len() == 0 {
        Map::empty()
    } else {
        members_view(members.drop_last()).insert(members.last().key@, members.last().value@)
    }
}

/// The values of a list of trees, one for one.
pub open spec fn items_view(items: Seq<Json>) -> Seq<JsonValue>
    decreases items,
{
    if items.len() == 0 {
        Seq::empty()
    } else {
        items_view(items.drop_last()).push(items.last()@)
    }
}

impl View for Json {
    type V = JsonValue;

    open spec fn view(&self) -> JsonValue
        decreases self,
    {
        match self {
            Json::Null => JsonValue::Null,
            Json::True => JsonValue::True,
            Json::False => JsonValue::False,
            Json::Number(n) => JsonValue::Number(*n as nat),
            Json::String(s) => JsonValue::String(s@),
            Json::Array(items) => JsonValue::Array(items_view(items@)),
            Json::Object(object) => JsonValue::Object(object@),
        }
    }
}

impl View for Object {
    type V = Map<Seq<char>, JsonValue>;

    closed spec fn view(&self) -> Map<Seq<char>, JsonValue>
        decreases self,
    {
        members_view(self.members@)
    }
}

/// The values of a list of trees are as many as the trees, and each is the
/// value of the tree at its place.
pub proof fn lemma_items_view(items: Seq<Json>)
    ensures
        items_view(items).len() == items.len(),
        forall|i: int| 0 <= i < items.len() ==> #[trigger] items_view(items)[i] == items[i]@,
    decreases items.len(),
{
    if items.len() > 0 {
        let front = items.drop_last();
        lemma_items_view(front);
        assert(items_view(items) == items_view(front).push(items.last()@));
        assert forall|i: int| 0 <= i < items.len() implies #[trigger] items_view(items)[i]
            == items[i]@ by {
            if i < front.len() {
                assert(front[i] == items[i]);
            }
        }
    }
}

/// The mapping holds the keys of its members and, for each key, the value of
/// the last member that has it.
proof fn lemma_members_view(members: Seq<Member>)
    ensures
        members_view(members).dom().finite(),
        forall|k: Seq<char>|
            members_view(members).contains_key(k) <==> exists|i: int|
                0 <= i < members.len() && #[trigger] members[i].key@ == k,
        forall|i: int|
            0 <= i < members.len() && (forall|j: int|
                i < j < members.len() ==> members[j].key@ != members[i].key@)
                ==> members_view(members)[#[trigger] members[i].key@] == members[i].value@,
    decreases members.len(),
{
    if members.len() > 0 {
        let front = members.drop_last();
        lemma_members_view(front);
        assert(members_view(members) == members_view(front).insert(
            members.last().key@,
            members.last().value@,
        ));
        assert forall|k: Seq<char>|
            members_view(members).contains_key(k) implies exists|i: int|
            0 <= i < members.len() && #[trigger] members[i].key@ == k by {
            if k == members.last().key@ {
                assert(members[members.len() - 1].key@ == k);
            } else {
                assert(members_view(front).contains_key(k));
                let i = choose|i: int| 0 <= i < front.len() && #[trigger] front[i].key@ == k;
                assert(members[i].key@ == k);
            }
        }
        assert forall|k: Seq<char>|
            (exists|i: int| 0 <= i < members.len() && #[trigger] members[i].key@ == k)
            implies members_view(members).contains_key(k) by {
            let i = choose|i: int| 0 <= i < members.len() && #[trigger] members[i].key@ == k;
            if i < front.len() {
                assert(front[i].key@ == k);
            }
        }
        assert forall|i: int|
            0 <= i < members.len() && (forall|j: int|
                i < j < members.len() ==> members[j].key@ != members[i].key@)
            implies members_view(members)[#[trigger] members[i].key@] == members[i].value@ by {
            if i < front.len() {
                assert(front[i] == members[i]);
                assert forall|j: int| i < j < front.len() implies front[j].key@ != front[i].key@ by {
                    assert(front[j] == members[j]);
                }
                assert(members[members.len() - 1].key@ != members[i].key@);
            }
        }
    }
}

/// Where no key occurs twice, there are as many keys as members.
proof fn lemma_members_len(members: Seq<Member>)
    requires
        forall|i: int, j: int|
            0 <= i < j < members.len() ==> members[i].key@ != members[j].key@,
    ensures
        members_view(members).dom().finite(),
        members_view(members).len() == members.len(),
    decreases members.len(),
{
    lemma_members_view(members);
    if members.len() > 0 {
        let front = members.drop_last();
        assert forall|i: int, j: int| 0 <= i < j < front.len() implies front[i].key@
            != front[j].key@ by {
            assert(front[i] == members[i]);
            assert(front[j] == members[j]);
        }
        lemma_members_len(front);
        lemma_members_view(front);
        assert(!members_view(front).contains_key(members.last().key@)) by {
            if members_view(front).contains_key(members.last().key@) {
                let i = choose|i: int|
                    0 <= i < front.len() && #[trigger] front[i].key@ == members.last().key@;
                assert(front[i] == members[i]);
            }
        }
    }
}

impl Object {
    #[verifier::type_invariant]
    spec fn keys_differ(self) -> bool {
        forall|i: int, j: int|
            0 <= i < j < self.members@.len() ==> self.members@[i].key@ != self.members@[j].key@
    }

    /// An object without members.
    pub fn new() -> (object: Object)
        ensures
            object@ == Map::<Seq<char>, JsonValue>::empty(),
    {
        Object { members: Vec::new() }
    }

    /// Binds `key` to `value`. A value that `key` had before is replaced.
    pub fn insert(&mut self, key: String, value: Json)
        ensures
            final(self)@ == old(self)@.insert(key@, value@),
    {
        proof {
            use_type_invariant(&*self);
        }
        let mut members: Vec<Member> = Vec::new();
        std::mem::swap(&mut members, &mut self.members);
        let ghost before = members@;
        let mut i: usize = 0;
        while i < members.len()
            invariant
                i <= members.len(),
                members@ == before,
                before == old(self).members@,
                forall|a: int, b: int|
                    0 <= a < b < before.len() ==> before[a].key@ != before[b].key@,
                forall|j: int| 0 <= j < i ==> members@[j].key@ != key@,
            decreases members.len() - i,
        {
            if members[i].key == key {
                members.set(i, Member { key, value });
                proof {
                    lemma_replace_member(before, i as int, members@[i as int]);
                }
                self.members = members;
                return ;
            }
            i += 1;
        }
        members.push(Member { key, value });
        proof {
            assert(members@.drop_last() =~= before);
            lemma_members_view(before);
        }
        self.members = members;
    }

    /// The value that `key` is bound to, if it is bound.
    pub fn get(&self, key: &str) -> (found: Option<&Json>)
        ensures
            found is Some <==> self@.contains_key(key@),
            found is Some ==> found.unwrap()@ == self@[key@],
    {
        let mut i: usize = 0;
        while i < self.members.len()
            invariant
                i <= self.members.len(),
                forall|j: int| 0 <= j < i ==> self.members@[j].key@ != key@,
            decreases self.members.len() - i,
        {
            if same_text(self.members[i].key.as_str(), key) {
                proof {
                    use_type_invariant(self);
                    lemma_members_view(self.members@);
                    assert(self.members@[i as int].key@ == key@);
                }
                return Some(&self.members[i].value);
            }
            i += 1;
        }
        proof {
            lemma_members_view(self.members@);
        }
        None
    }

    /// The keys, each once, in the order in which `entry` hands them out.
    pub closed spec fn keys(&self) -> Seq<Seq<char>> {
        Seq::new(self.members@.len(), |i: int| self.members@[i].key@)
    }

    /// The number of keys.
    pub fn len(&self) -> (n: usize)
        ensures
            self@.dom().finite(),
            n == self@.len(),
            n == self.keys().len(),
            self.keys().no_duplicates(),
            self.keys().to_set() == self@.dom(),
    {
        proof {
            use_type_invariant(self);
            lemma_members_len(self.members@);
            lemma_members_view(self.members@);
            assert(self.keys().to_set() =~= self@.dom()) by {
                assert forall|k: Seq<char>| self.keys().to_set().contains(k) implies self@.dom().contains(k) by {
                    let i = choose|i: int| 0 <= i < self.keys().len() && self.keys()[i] == k;
                    assert(self.members@[i].key@ == k);
                }
                assert forall|k: Seq<char>| self@.dom().contains(k) implies self.keys().to_set().contains(k) by {
                    let i = choose|i: int|
                        0 <= i < self.members@.len() && #[trigger] self.members@[i].key@ == k;
                    assert(self.keys()[i] == k);
                }
            }
        }
        self.members.len()
    }

    /// The key at `index` and the value that it is bound to.
    pub fn entry(&self, index: usize) -> (pair: (&String, &Json))
        requires
            index < self.keys().len(),
        ensures
            pair.0@ == self.keys()[index as int],
            self@.contains_key(pair.0@),
            pair.1@ == self@[pair.0@],
    {
        proof {
            use_type_invariant(self);
            lemma_members_view(self.members@);
            assert(self.members@[index as int].key@ == self.keys()[index as int]);
        }
        (&self.members[index].key, &self.members[index].value)
    }
}

/// Replacing the only member that has a key rebinds that key and no other.
proof fn lemma_replace_member(members: Seq<Member>, at: int, member: Member)
    requires
        0 <= at < members.len(),
        member.key@ == members[at].key@,
        forall|i: int, j: int|
            0 <= i < j < members.len() ==> members[i].key@ != members[j].key@,
    ensures
        members_view(members.update(at, member)) == members_view(members).insert(
            member.key@,
            member.value@,
        ),
        forall|i: int, j: int|
            0 <= i < j < members.len() ==> members.update(at, member)[i].key@
                != members.update(at, member)[j].key@,
{
    let after = members.update(at, member);
    lemma_members_view(members);
    lemma_members_view(after);
    let a = members_view(after);
    let b = members_view(members).insert(member.key@, member.value@);
    assert forall|k: Seq<char>| a.contains_key(k) <==> b.contains_key(k) by {
        if a.contains_key(k) {
            let i = choose|i: int| 0 <= i < after.len() && #[trigger] after[i].key@ == k;
            assert(members[i].key@ == k);
        }
        if b.contains_key(k) {
            if k == member.key@ {
                assert(after[at].key@ == k);
            } else {
                let i = choose|i: int| 0 <= i < members.len() && #[trigger] members[i].key@ == k;
                assert(after[i].key@ == k);
            }
        }
    }
    assert forall|k: Seq<char>| a.contains_key(k) implies a[k] == b[k] by {
        let i = choose|i: int| 0 <= i < after.len() && #[trigger] after[i].key@ == k;
        assert(a[after[i].key@] == after[i].value@);
        if i != at {
            assert(members[i].key@ == k);
            assert(members_view(members)[members[i].key@] == members[i].value@);
        }
    }
    assert(a =~= b);
}

} // verus!
