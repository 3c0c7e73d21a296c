//! The parsed message structure: named field values in insertion order.

use vstd::prelude::*;

use crate::message::field_value::FieldValue;
use crate::util::str_eq;

verus! {

/// A structured message: header words plus an ordered mapping from field
/// name to value.
///
/// Insertion order is preserved but is not authoritative for wire order;
/// the encoder always follows the schema's declared order.
#[derive(Debug, Clone)]
pub struct Message {
    pub msg_type: u32,
    pub seq_num: u32,
    pub fields: Vec<(String, FieldValue)>,
}

/// The value stored for `name` in an ordered field list: the first entry
/// whose key has the characters of `name`.
pub open spec fn spec_find(s: Seq<(String, FieldValue)>, name: Seq<char>) -> Option<FieldValue>
    decreases s.len(),
{
    if s.len() == 0 {
        None
    } else if s[0].0@ == name {
        Some(s[0].1)
    } else {
        spec_find(s.drop_first(), name)
    }
}

/// The field list after storing `value` under `name`: the first entry with
/// that key is replaced in place, or a new entry is appended.
pub open spec fn spec_store(
    s: Seq<(String, FieldValue)>,
    name: String,
    value: FieldValue,
) -> Seq<(String, FieldValue)>
    decreases s.len(),
{
    if s.len() == 0 {
        seq![(name, value)]
    } else if s[0].0@ == name@ {
        seq![(s[0].0, value)] + s.drop_first()
    } else {
        seq![s[0]] + spec_store(s.drop_first(), name, value)
    }
}

impl Message {
    /// The value stored under `name`, if any.
    pub open spec fn spec_get(self, name: Seq<char>) -> Option<FieldValue> {
        spec_find(self.fields@, name)
    }

    pub open spec fn spec_has(self, name: Seq<char>) -> bool {
        self.spec_get(name) is Some
    }

    pub fn new(msg_type: u32, seq_num: u32) -> (r: Self)
        ensures
            r.msg_type == msg_type,
            r.seq_num == seq_num,
            r.fields@ =~= Seq::<(String, FieldValue)>::empty(),
    {
        Self { msg_type, seq_num, fields: Vec::new() }
    }

    /// Stores `value` under `name`, replacing in place any earlier value of
    /// that field and otherwise appending.
    pub fn add_field(&mut self, name: String, value: FieldValue)
        ensures
            final(self).msg_type == old(self).msg_type,
            final(self).seq_num == old(self).seq_num,
            final(self).fields@ == spec_store(old(self).fields@, name, value),
    {
        let n = self.fields.len();
        let mut i: usize = 0;
        while i < n
            invariant
                n == self.fields.len(),
                *self == *old(self),
                i <= n,
                forall|k: int| 0 <= k < i ==> self.fields@[k].0@ != name@,
            decreases n - i,
        {
            if str_eq(self.fields[i].0.as_str(), name.as_str()) {
                let key = self.fields[i].0.clone();
                self.fields.set(i, (key, value));
                proof {
                    lemma_store_at(old(self).fields@, name, value, i as int);
                    assert(final(self).fields@ =~= old(self).fields@.update(
                        i as int,
                        (old(self).fields@[i as int].0, value),
                    ));
                }
                return ;
            }
            i = i + 1;
        }
        self.fields.push((name, value));
        proof {
            lemma_store_absent(old(self).fields@, name, value);
        }
    }

    /// The value stored under `name`: the first entry with that key.
    pub fn get_field(&self, name: &str) -> (r: Option<&FieldValue>)
        ensures
            (r is Some) == (self.spec_get(name@) is Some),
            r matches Some(v) ==> Some(*v) == self.spec_get(name@),
    {
        let n = self.fields.len();
        proof {
            assert(self.fields@.skip(0) =~= self.fields@);
        }
        let mut i: usize = 0;
        while i < n
            invariant
                n == self.fields.len(),
                i <= n,
                forall|k: int| 0 <= k < i ==> self.fields@[k].0@ != name@,
                spec_find(self.fields@.skip(i as int), name@) == self.spec_get(name@),
            decreases n - i,
        {
            if str_eq(self.fields[i].0.as_str(), name) {
                proof {
                    assert(self.fields@.skip(i as int)[0] == self.fields@[i as int]);
                }
                return Some(&self.fields[i].1);
            }
            proof {
                assert(self.fields@.skip(i as int).drop_first() =~= self.fields@.skip(i + 1));
            }
            i = i + 1;
        }
        proof {
            assert(self.fields@.skip(n as int).len() == 0);
        }
        None
    }

    /// How many distinct fields the message carries.
    pub fn field_count(&self) -> (r: usize)
        ensures
            r == self.fields@.len(),
    {
        self.fields.len()
    }

    /// Whether a field of this name is present.
    pub fn has_field(&self, name: &str) -> (r: bool)
        ensures
            r == self.spec_has(name@),
    {
        self.get_field(name).is_some()
    }
}

/// Storing under a key that first occurs at `i` replaces the value at `i`.
proof fn lemma_store_at(s: Seq<(String, FieldValue)>, name: String, value: FieldValue, i: int)
    requires
        0 <= i < s.len(),
        s[i].0@ == name@,
        forall|k: int| 0 <= k < i ==> s[k].0@ != name@,
    ensures
        spec_store(s, name, value) =~= s.update(i, (s[i].0, value)),
    decreases s.len(),
{
    if i == 0 {
    } else {
        lemma_store_at(s.drop_first(), name, value, i - 1);
        assert(spec_store(s, name, value) =~= seq![s[0]] + spec_store(
            s.drop_first(),
            name,
            value,
        ));
        assert(s.drop_first().update(i - 1, (s.drop_first()[i - 1].0, value)) =~= s.update(
            i,
            (s[i].0, value),
        ).drop_first());
    }
}

/// Storing under a key the list does not hold appends a new entry.
proof fn lemma_store_absent(s: Seq<(String, FieldValue)>, name: String, value: FieldValue)
    requires
        forall|k: int| 0 <= k < s.len() ==> s[k].0@ != name@,
    ensures
        spec_store(s, name, value) =~= s.push((name, value)),
    decreases s.len(),
{
    if s.len() == 0 {
    } else {
        lemma_store_absent(s.drop_first(), name, value);
        assert(s.drop_first().push((name, value)) =~= s.push((name, value)).drop_first());
    }
}

} // verus!
