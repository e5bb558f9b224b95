//! Bencode decoder and encoder.
//!
//! Decoding returns a typed [`Value`] tree and, for a torrent file, the byte
//! range of the raw "info" dictionary, so that the caller can hash it as it
//! stands.

use vstd::prelude::*;
use vstd::slice::{slice_subrange, slice_to_vec};
use vstd::utf8::{
    decode_utf8, encode_utf8, encode_utf8_decode_utf8, encode_utf8_valid_utf8,
    is_ascii_chars_encode_utf8, valid_utf8,
};
use vstd::string::StringSliceAdditionalSpecFns;

use crate::error::{BencodeError, Error, Result};
use crate::octets::{
    append_bytes, copy_range, lemma_precedes_asymmetric, lemma_precedes_irreflexive,
    lemma_precedes_total, lemma_precedes_transitive, order_bytes, precedes, same_bytes, Order,
};
use crate::text::{
    append_decimal, append_signed_decimal, checked_utf8, decimal, i64_fault, i64_of, int_fault,
    is_digit, lemma_ascii_utf8, lemma_decimal, lemma_i64_of, lemma_i64_of_signed_decimal,
    parse_i64, signed_decimal, str_of, utf8_chars, utf8_error, MINUS,
};

verus! {

pub const COLON: u8 = 0x3a;

pub const LOWER_D: u8 = 0x64;

pub const LOWER_E: u8 = 0x65;

pub const LOWER_I: u8 = 0x69;

pub const LOWER_L: u8 = 0x6c;

// Values

/// The mathematical content of a bencoded value.
pub enum Tree {
    Bytes(Seq<u8>),
    Int(i64),
    List(Seq<Tree>),
    Dict(Map<Seq<u8>, Tree>),
}

impl Tree {
    /// The value under a key of a dictionary.
    pub open spec fn get(self, key: Seq<u8>) -> Option<Tree> {
        match self {
            Tree::Dict(m) => if m.contains_key(key) {
                Some(m[key])
            } else {
                None
            },
            _ => None,
        }
    }

    pub open spec fn as_bytes(self) -> Option<Seq<u8>> {
        match self {
            Tree::Bytes(b) => Some(b),
            _ => None,
        }
    }

    pub open spec fn as_str(self) -> Option<Seq<char>> {
        match self {
            Tree::Bytes(b) => utf8_chars(b),
            _ => None,
        }
    }

    pub open spec fn as_int(self) -> Option<i64> {
        match self {
            Tree::Int(i) => Some(i),
            _ => None,
        }
    }

    pub open spec fn as_list(self) -> Option<Seq<Tree>> {
        match self {
            Tree::List(l) => Some(l),
            _ => None,
        }
    }

    pub open spec fn get_bytes(self, key: Seq<u8>) -> Option<Seq<u8>> {
        match self.get(key) {
            Some(t) => t.as_bytes(),
            None => None,
        }
    }

    pub open spec fn get_str(self, key: Seq<u8>) -> Option<Seq<char>> {
        match self.get(key) {
            Some(t) => t.as_str(),
            None => None,
        }
    }

    pub open spec fn get_int(self, key: Seq<u8>) -> Option<i64> {
        match self.get(key) {
            Some(t) => t.as_int(),
            None => None,
        }
    }

    pub open spec fn get_list(self, key: Seq<u8>) -> Option<Seq<Tree>> {
        match self.get(key) {
            Some(t) => t.as_list(),
            None => None,
        }
    }
}

/// A decoded bencode value.
#[derive(Debug, PartialEq)]
pub enum Value {
    /// Raw byte string.
    Bytes(Vec<u8>),
    /// Signed 64-bit integer.
    Int(i64),
    /// Ordered list of values.
    List(Vec<Value>),
    /// Dictionary with byte-string keys.
    Dict(Dict),
}

/// A dictionary with byte-string keys, held in ascending order of the keys.
#[derive(Debug, PartialEq)]
pub struct Dict {
    entries: Vec<(Vec<u8>, Value)>,
}

/// The content of a value.
pub open spec fn tree_of(v: Value) -> Tree
    decreases v,
{
    match v {
        Value::Bytes(b) => Tree::Bytes(b@),
        Value::Int(i) => Tree::Int(i),
        Value::List(l) => Tree::List(trees_of(l@)),
        Value::Dict(d) => Tree::Dict(map_of(d)),
    }
}

/// The contents of a sequence of values.
pub open spec fn trees_of(s: Seq<Value>) -> Seq<Tree>
    decreases s,
{
    if s.len() == 0 {
        seq![]
    } else {
        trees_of(s.drop_last()).push(tree_of(s.last()))
    }
}

/// The content of a dictionary.
pub closed spec fn map_of(d: Dict) -> Map<Seq<u8>, Tree>
    decreases d,
{
    entry_map(d.entries@)
}

spec fn entry_map(s: Seq<(Vec<u8>, Value)>) -> Map<Seq<u8>, Tree>
    decreases s,
{
    if s.len() == 0 {
        Map::empty()
    } else {
        entry_map(s.drop_last()).insert(s.last().0@, tree_of(s.last().1))
    }
}

impl View for Value {
    type V = Tree;

    open spec fn view(&self) -> Tree {
        tree_of(*self)
    }
}

impl View for Dict {
    type V = Map<Seq<u8>, Tree>;

    open spec fn view(&self) -> Map<Seq<u8>, Tree> {
        map_of(*self)
    }
}

pub broadcast proof fn lemma_trees_of(s: Seq<Value>)
    ensures
        #[trigger] trees_of(s) == Seq::new(s.len(), |i: int| tree_of(s[i])),
    decreases s,
{
    if s.len() > 0 {
        lemma_trees_of(s.drop_last());
    }
    assert(trees_of(s) =~= Seq::new(s.len(), |i: int| tree_of(s[i])));
}

spec fn sorted(s: Seq<(Vec<u8>, Value)>) -> bool {
    forall|i: int, j: int| 0 <= i < j < s.len() ==> precedes(#[trigger] s[i].0@, #[trigger] s[j].0@)
}

proof fn lemma_entry_map(s: Seq<(Vec<u8>, Value)>)
    requires
        sorted(s),
    ensures
        forall|i: int|
            0 <= i < s.len() ==> entry_map(s).contains_key(#[trigger] s[i].0@) && entry_map(
                s,
            )[s[i].0@] == tree_of(s[i].1),
        forall|k: Seq<u8>| #[trigger]
            entry_map(s).contains_key(k) ==> exists|i: int| 0 <= i < s.len() && #[trigger] s[i].0@ == k,
    decreases s.len(),
{
    if s.len() > 0 {
        let t = s.drop_last();
        lemma_entry_map(t);
        assert forall|i: int| 0 <= i < s.len() implies entry_map(s).contains_key(
            #[trigger] s[i].0@,
        ) && entry_map(s)[s[i].0@] == tree_of(s[i].1) by {
            if i < t.len() {
                assert(t[i] == s[i]);
                lemma_precedes_asymmetric(s[i].0@, s.last().0@);
            }
        }
        assert forall|k: Seq<u8>| #[trigger] entry_map(s).contains_key(k) implies exists|i: int|
            0 <= i < s.len() && #[trigger] s[i].0@ == k by {
            if k == s.last().0@ {
                assert(s[s.len() - 1].0@ == k);
            } else {
                assert(entry_map(t).contains_key(k));
                let i = choose|i: int| 0 <= i < t.len() && #[trigger] t[i].0@ == k;
                assert(s[i].0@ == k);
            }
        }
    }
}

impl Dict {
    #[verifier::type_invariant]
    spec fn well_formed(self) -> bool {
        sorted(self.entries@)
    }

    /// An empty dictionary.
    pub fn new() -> (d: Dict)
        ensures
            d@ == Map::<Seq<u8>, Tree>::empty(),
    {
        Dict { entries: Vec::new() }
    }

    /// Number of keys.
    pub fn len(&self) -> (n: usize)
        ensures
            self@.dom().finite(),
            n == self@.dom().len(),
    {
        proof {
            use_type_invariant(self);
            lemma_entry_map_len(self.entries@);
        }
        self.entries.len()
    }

    /// Whether there is no key.
    pub fn is_empty(&self) -> (r: bool)
        ensures
            r == (self@ == Map::<Seq<u8>, Tree>::empty()),
    {
        proof {
            use_type_invariant(self);
            lemma_entry_map(self.entries@);
            if self.entries@.len() > 0 {
                assert(self@.contains_key(self.entries@[0].0@));
            }
        }
        self.entries.len() == 0
    }

    /// Look up a key.
    pub fn get(&self, key: &[u8]) -> (r: Option<&Value>)
        ensures
            match r {
                Some(v) => self@.contains_key(key@) && self@[key@] == v@,
                None => !self@.contains_key(key@),
            },
    {
        proof {
            use_type_invariant(self);
            lemma_entry_map(self.entries@);
        }
        let mut i: usize = 0;
        while i < self.entries.len()
            invariant
                i <= self.entries.len(),
                forall|j: int| 0 <= j < i ==> #[trigger] self.entries@[j].0@ != key@,
                forall|j: int|
                    0 <= j < self.entries@.len() ==> self@.contains_key(
                        #[trigger] self.entries@[j].0@,
                    ) && self@[self.entries@[j].0@] == tree_of(self.entries@[j].1),
            decreases self.entries.len() - i,
        {
            let entry = &self.entries[i];
            assert(self.entries@[i as int].0@ == entry.0@);
            if same_bytes(entry.0.as_slice(), key) {
                return Some(&entry.1);
            }
            i = i + 1;
        }
        None
    }

    /// Set the value of a key, replacing the one that it had.
    pub fn insert(&mut self, key: Vec<u8>, value: Value)
        ensures
            final(self)@ == old(self)@.insert(key@, value@),
    {
        proof {
            use_type_invariant(&*self);
        }
        let mut entries: Vec<(Vec<u8>, Value)> = Vec::new();
        std::mem::swap(&mut entries, &mut self.entries);
        insert_entry(&mut entries, key, value);
        self.entries = entries;
    }
}

fn insert_entry(entries: &mut Vec<(Vec<u8>, Value)>, key: Vec<u8>, value: Value)
    requires
        sorted(old(entries)@),
    ensures
        sorted(final(entries)@),
        entry_map(final(entries)@) == entry_map(old(entries)@).insert(key@, value@),
{
    let ghost before = entries@;
    let mut i: usize = 0;
    while i < entries.len()
        invariant
            i <= entries.len(),
            before == old(entries)@,
            entries@ == before,
            sorted(before),
            forall|j: int| 0 <= j < i ==> precedes(#[trigger] before[j].0@, key@),
        decreases entries.len() - i,
    {
        match order_bytes(entries[i].0.as_slice(), key.as_slice()) {
            Order::Less => {
                i = i + 1;
            },
            Order::Equal => {
                proof {
                    lemma_replace(before, i as int, key, value);
                }
                entries[i] = (key, value);
                return ;
            },
            Order::Greater => {
                proof {
                    lemma_insert(before, i as int, key, value);
                }
                entries.insert(i, (key, value));
                return ;
            },
        }
    }
    proof {
        lemma_insert(before, i as int, key, value);
    }
    entries.insert(i, (key, value));
}

proof fn lemma_replace(s: Seq<(Vec<u8>, Value)>, at: int, key: Vec<u8>, value: Value)
    requires
        sorted(s),
        0 <= at < s.len(),
        s[at].0@ == key@,
    ensures
        sorted(s.update(at, (key, value))),
        entry_map(s.update(at, (key, value))) == entry_map(s).insert(key@, value@),
{
    let t = s.update(at, (key, value));
    assert forall|i: int, j: int| 0 <= i < j < t.len() implies precedes(
        #[trigger] t[i].0@,
        #[trigger] t[j].0@,
    ) by {
        assert(t[i].0@ == s[i].0@ && t[j].0@ == s[j].0@);
    }
    lemma_same_keys(s, t, at, key, value);
}

proof fn lemma_insert(s: Seq<(Vec<u8>, Value)>, at: int, key: Vec<u8>, value: Value)
    requires
        sorted(s),
        0 <= at <= s.len(),
        forall|j: int| 0 <= j < at ==> precedes(#[trigger] s[j].0@, key@),
        at < s.len() ==> precedes(key@, s[at].0@),
    ensures
        sorted(s.insert(at, (key, value))),
        entry_map(s.insert(at, (key, value))) == entry_map(s).insert(key@, value@),
{
    let t = s.insert(at, (key, value));
    assert forall|j: int| at <= j < s.len() implies precedes(key@, #[trigger] s[j].0@) by {
        if j > at {
            lemma_precedes_transitive(key@, s[at].0@, s[j].0@);
        }
    }
    assert forall|i: int, j: int| 0 <= i < j < t.len() implies precedes(
        #[trigger] t[i].0@,
        #[trigger] t[j].0@,
    ) by {
        if i < at {
            assert(t[i] == s[i]);
        } else if i > at {
            assert(t[i] == s[i - 1]);
        }
        if j < at {
            assert(t[j] == s[j]);
        } else if j > at {
            assert(t[j] == s[j - 1]);
        }
    }
    lemma_entry_map(s);
    lemma_entry_map(t);
    let m = entry_map(s).insert(key@, value@);
    assert forall|k: Seq<u8>| entry_map(t).contains_key(k) == m.contains_key(k) by {
        if entry_map(t).contains_key(k) {
            let i = choose|i: int| 0 <= i < t.len() && #[trigger] t[i].0@ == k;
            if i < at {
                assert(t[i] == s[i]);
            } else if i > at {
                assert(t[i] == s[i - 1]);
            }
        }
        if m.contains_key(k) {
            if k == key@ {
                assert(t[at].0@ == k);
            } else {
                let i = choose|i: int| 0 <= i < s.len() && #[trigger] s[i].0@ == k;
                if i < at {
                    assert(t[i] == s[i]);
                } else {
                    assert(t[i + 1] == s[i]);
                }
            }
        }
    }
    assert forall|k: Seq<u8>| #[trigger] entry_map(t).contains_key(k) implies entry_map(t)[k] == m[k] by {
        let i = choose|i: int| 0 <= i < t.len() && #[trigger] t[i].0@ == k;
        if i < at {
            assert(t[i] == s[i]);
            lemma_precedes_asymmetric(s[i].0@, key@);
        } else if i > at {
            assert(t[i] == s[i - 1]);
            lemma_precedes_asymmetric(key@, s[i - 1].0@);
        }
    }
    assert(entry_map(t) =~= m);
}

proof fn lemma_same_keys(
    s: Seq<(Vec<u8>, Value)>,
    t: Seq<(Vec<u8>, Value)>,
    at: int,
    key: Vec<u8>,
    value: Value,
)
    requires
        sorted(s),
        sorted(t),
        0 <= at < s.len(),
        s[at].0@ == key@,
        t == s.update(at, (key, value)),
    ensures
        entry_map(t) == entry_map(s).insert(key@, value@),
{
    lemma_entry_map(s);
    lemma_entry_map(t);
    let m = entry_map(s).insert(key@, value@);
    assert forall|k: Seq<u8>| entry_map(t).contains_key(k) == m.contains_key(k) by {
        if entry_map(t).contains_key(k) {
            let i = choose|i: int| 0 <= i < t.len() && #[trigger] t[i].0@ == k;
            assert(s[i].0@ == k);
        }
        if m.contains_key(k) && k != key@ {
            let i = choose|i: int| 0 <= i < s.len() && #[trigger] s[i].0@ == k;
            assert(t[i].0@ == k);
        }
        if k == key@ {
            assert(t[at].0@ == k);
        }
    }
    assert forall|k: Seq<u8>| #[trigger] entry_map(t).contains_key(k) implies entry_map(t)[k] == m[k] by {
        let i = choose|i: int| 0 <= i < t.len() && #[trigger] t[i].0@ == k;
        if i != at {
            assert(t[i] == s[i]);
            if i < at {
                lemma_precedes_asymmetric(s[i].0@, s[at].0@);
            } else {
                lemma_precedes_asymmetric(s[at].0@, s[i].0@);
            }
        }
    }
    assert(entry_map(t) =~= m);
}

proof fn lemma_entry_map_len(s: Seq<(Vec<u8>, Value)>)
    requires
        sorted(s),
    ensures
        entry_map(s).dom().finite(),
        entry_map(s).dom().len() == s.len(),
    decreases s.len(),
{
    if s.len() > 0 {
        let t = s.drop_last();
        lemma_entry_map_len(t);
        lemma_entry_map(t);
        if entry_map(t).contains_key(s.last().0@) {
            let i = choose|i: int| 0 <= i < t.len() && #[trigger] t[i].0@ == s.last().0@;
            assert(t[i] == s[i]);
            lemma_precedes_irreflexive(s.last().0@);
        }
        assert(entry_map(s).dom() =~= entry_map(t).dom().insert(s.last().0@));
    } else {
        assert(entry_map(s).dom() =~= Set::empty());
    }
}

impl Value {
    /// Return the inner byte slice if this is a `Bytes` variant, otherwise `None`.
    pub fn as_bytes(&self) -> (r: Option<&[u8]>)
        ensures
            match self@.as_bytes() {
                Some(b) => r matches Some(s) && s@ == b,
                None => r is None,
            },
    {
        if let Value::Bytes(b) = self {
            Some(b.as_slice())
        } else {
            None
        }
    }

    /// Interpret this value as a UTF-8 string slice, or `None` if it is not valid UTF-8 bytes.
    pub fn as_str(&self) -> (r: Option<&str>)
        ensures
            match self@.as_str() {
                Some(chars) => r matches Some(s) && s@ == chars,
                None => r is None,
            },
    {
        if let Value::Bytes(b) = self {
            str_of(b.as_slice())
        } else {
            None
        }
    }

    /// Return the inner integer if this is an `Int` variant, otherwise `None`.
    pub fn as_int(&self) -> (r: Option<i64>)
        ensures
            r == self@.as_int(),
    {
        if let Value::Int(i) = self {
            Some(*i)
        } else {
            None
        }
    }

    /// Return a slice of the inner list if this is a `List` variant, otherwise `None`.
    pub fn as_list(&self) -> (r: Option<&[Value]>)
        ensures
            match self@.as_list() {
                Some(l) => r matches Some(s) && trees_of(s@) == l,
                None => r is None,
            },
    {
        if let Value::List(l) = self {
            Some(l.as_slice())
        } else {
            None
        }
    }

    /// Return a reference to the inner map if this is a `Dict` variant, otherwise `None`.
    pub fn as_dict(&self) -> (r: Option<&Dict>)
        ensures
            match self@ {
                Tree::Dict(m) => r matches Some(d) && d@ == m,
                _ => r is None,
            },
    {
        if let Value::Dict(d) = self {
            Some(d)
        } else {
            None
        }
    }

    /// Convenience: look up a key in a `Value::Dict`.
    pub fn get(&self, key: &[u8]) -> (r: Option<&Value>)
        ensures
            match self@.get(key@) {
                Some(t) => r matches Some(v) && v@ == t,
                None => r is None,
            },
    {
        match self.as_dict() {
            Some(d) => d.get(key),
            None => None,
        }
    }

    /// The bytes under a key of a dictionary.
    pub fn get_bytes(&self, key: &[u8]) -> (r: Option<&[u8]>)
        ensures
            match self@.get_bytes(key@) {
                Some(b) => r matches Some(s) && s@ == b,
                None => r is None,
            },
    {
        match self.get(key) {
            Some(v) => v.as_bytes(),
            None => None,
        }
    }

    /// The text under a key of a dictionary.
    pub fn get_str(&self, key: &[u8]) -> (r: Option<&str>)
        ensures
            match self@.get_str(key@) {
                Some(chars) => r matches Some(s) && s@ == chars,
                None => r is None,
            },
    {
        match self.get(key) {
            Some(v) => v.as_str(),
            None => None,
        }
    }

    /// The integer under a key of a dictionary.
    pub fn get_int(&self, key: &[u8]) -> (r: Option<i64>)
        ensures
            r == self@.get_int(key@),
    {
        match self.get(key) {
            Some(v) => v.as_int(),
            None => None,
        }
    }

    /// The list under a key of a dictionary.
    pub fn get_list(&self, key: &[u8]) -> (r: Option<&[Value]>)
        ensures
            match self@.get_list(key@) {
                Some(l) => r matches Some(s) && trees_of(s@) == l,
                None => r is None,
            },
    {
        match self.get(key) {
            Some(v) => v.as_list(),
            None => None,
        }
    }
}

// Decoding

/// The first index at or after `from` that holds `byte`.
pub open spec fn find_from(data: Seq<u8>, from: int, byte: u8) -> Option<int>
    decreases data.len() - from,
{
    if from < 0 || from >= data.len() {
        None
    } else if data[from] == byte {
        Some(from)
    } else {
        find_from(data, from + 1, byte)
    }
}

/// The integer whose text stands at `pos` and ends before `delim`, and the
/// position after the delimiter.
pub open spec fn int_at(data: Seq<u8>, pos: int, delim: u8) -> std::result::Result<
    (i64, int),
    BencodeError<Seq<char>>,
> {
    match find_from(data, pos, delim) {
        None => Err(BencodeError::UnterminatedInteger),
        Some(end) => {
            let text = data.subrange(pos, end);
            if !valid_utf8(text) {
                Err(BencodeError::NonUtf8Integer { reason: utf8_error(text) })
            } else {
                match i64_of(text) {
                    Some(n) => Ok((n, end + 1)),
                    None => Err(
                        BencodeError::InvalidInteger {
                            text: decode_utf8(text),
                            cause: i64_fault(text),
                        },
                    ),
                }
            }
        },
    }
}

/// The byte string at `pos`, and the position after it.
pub open spec fn bytes_at(data: Seq<u8>, pos: int) -> std::result::Result<
    (Seq<u8>, int),
    BencodeError<Seq<char>>,
> {
    match int_at(data, pos, COLON) {
        Err(e) => Err(e),
        Ok((n, start)) => if n < 0 {
            Err(BencodeError::NegativeLength)
        } else {
            if start + n > data.len() {
                Err(BencodeError::LengthExceedsInput { len: n as u64, offset: start as usize })
            } else {
                Ok((data.subrange(start, start + n), start + n))
            }
        },
    }
}

/// The value at `pos`, and the position after it.
pub open spec fn value_at(data: Seq<u8>, pos: int) -> std::result::Result<
    (Tree, int),
    BencodeError<Seq<char>>,
>
    decreases data.len() - pos, 0int,
{
    if pos < 0 || pos >= data.len() {
        Err(BencodeError::UnexpectedEnd)
    } else if data[pos] == LOWER_I {
        match int_at(data, pos + 1, LOWER_E) {
            Ok((n, next)) => Ok((Tree::Int(n), next)),
            Err(e) => Err(e),
        }
    } else if data[pos] == LOWER_L {
        items_at(data, pos + 1, seq![])
    } else if data[pos] == LOWER_D {
        entries_at(data, pos + 1, Map::empty())
    } else if is_digit(data[pos]) {
        match bytes_at(data, pos) {
            Ok((b, next)) => Ok((Tree::Bytes(b), next)),
            Err(e) => Err(e),
        }
    } else {
        Err(BencodeError::UnexpectedByte { byte: data[pos], offset: pos as usize })
    }
}

/// The rest of a list from `pos` on, after the items `seen`, and the position
/// after the list. A value always ends after it starts (`lemma_progress`).
pub open spec fn items_at(data: Seq<u8>, pos: int, seen: Seq<Tree>) -> std::result::Result<
    (Tree, int),
    BencodeError<Seq<char>>,
>
    decreases data.len() - pos, 1int,
{
    if pos < 0 || pos >= data.len() {
        Err(BencodeError::UnterminatedList)
    } else if data[pos] == LOWER_E {
        Ok((Tree::List(seen), pos + 1))
    } else {
        match value_at(data, pos) {
            Err(e) => Err(e),
            Ok((t, next)) => if pos < next <= data.len() {
                items_at(data, next, seen.push(t))
            } else {
                Err(BencodeError::UnterminatedList)
            },
        }
    }
}

/// The rest of a dictionary from `pos` on, after the entries `seen`, and the
/// position after the dictionary. The last entry of a key stands.
pub open spec fn entries_at(
    data: Seq<u8>,
    pos: int,
    seen: Map<Seq<u8>, Tree>,
) -> std::result::Result<(Tree, int), BencodeError<Seq<char>>>
    decreases data.len() - pos, 1int,
{
    if pos < 0 || pos >= data.len() {
        Err(BencodeError::UnterminatedDict)
    } else if data[pos] == LOWER_E {
        Ok((Tree::Dict(seen), pos + 1))
    } else {
        match entry_at(data, pos) {
            Err(e) => Err(e),
            Ok((key, _, t, next)) => if pos < next <= data.len() {
                entries_at(data, next, seen.insert(key, t))
            } else {
                Err(BencodeError::UnterminatedDict)
            },
        }
    }
}

/// The key at `pos`, where its value starts, the value, and the position after it.
pub open spec fn entry_at(data: Seq<u8>, pos: int) -> std::result::Result<
    (Seq<u8>, int, Tree, int),
    BencodeError<Seq<char>>,
>
    decreases data.len() - pos, 0int,
{
    match bytes_at(data, pos) {
        Err(e) => Err(e),
        Ok((key, start)) => if pos < start {
            match value_at(data, start) {
                Err(e) => Err(e),
                Ok((t, next)) => Ok((key, start, t, next)),
            }
        } else {
            Err(BencodeError::UnexpectedEnd)
        },
    }
}

/// What is found at the top level of a torrent file from `pos` on, after the
/// entries `seen`: the entries, and where the value of the last "info" key
/// starts and ends.
pub open spec fn top_entries_at(
    data: Seq<u8>,
    pos: int,
    seen: Map<Seq<u8>, Tree>,
    info: Option<(usize, usize)>,
) -> std::result::Result<(Tree, Option<(usize, usize)>), BencodeError<Seq<char>>>
    decreases data.len() - pos,
{
    if pos < 0 || pos >= data.len() {
        Err(BencodeError::UnterminatedTopLevelDict)
    } else if data[pos] == LOWER_E {
        Ok((Tree::Dict(seen), info))
    } else {
        match entry_at(data, pos) {
            Err(e) => Err(e),
            Ok((key, start, t, next)) => if pos < next <= data.len() {
                top_entries_at(
                    data,
                    next,
                    seen.insert(key, t),
                    if key == "info".spec_bytes() {
                        Some((start as usize, next as usize))
                    } else {
                        info
                    },
                )
            } else {
                Err(BencodeError::UnterminatedTopLevelDict)
            },
        }
    }
}

/// The dictionary of a torrent file, and where its "info" value stands.
pub open spec fn torrent_of(data: Seq<u8>) -> std::result::Result<
    (Tree, Option<(usize, usize)>),
    BencodeError<Seq<char>>,
> {
    if data.len() > 0 && data[0] == LOWER_D {
        top_entries_at(data, 1, Map::empty(), None)
    } else {
        Err(BencodeError::TorrentNotDict)
    }
}

pub proof fn lemma_find_from(data: Seq<u8>, from: int, byte: u8)
    requires
        0 <= from,
    ensures
        match find_from(data, from, byte) {
            Some(i) => from <= i < data.len() && data[i] == byte && forall|j: int|
                from <= j < i ==> data[j] != byte,
            None => forall|j: int| from <= j < data.len() ==> data[j] != byte,
        },
    decreases data.len() - from,
{
    if from < data.len() && data[from] != byte {
        lemma_find_from(data, from + 1, byte);
    }
}

pub(crate) proof fn lemma_find_from_is(data: Seq<u8>, from: int, byte: u8, at: int)
    requires
        0 <= from <= at < data.len(),
        data[at] == byte,
        forall|j: int| from <= j < at ==> data[j] != byte,
    ensures
        find_from(data, from, byte) == Some(at),
{
    lemma_find_from(data, from, byte);
}

proof fn lemma_bytes_progress(data: Seq<u8>, pos: int)
    requires
        0 <= pos,
    ensures
        bytes_at(data, pos) matches Ok((b, next)) ==> pos < next <= data.len(),
{
    lemma_find_from(data, pos, COLON);
}

/// A value ends after it starts, and within the data.
pub proof fn lemma_progress(data: Seq<u8>, pos: int)
    requires
        0 <= pos,
    ensures
        value_at(data, pos) matches Ok((t, next)) ==> pos < next <= data.len(),
    decreases data.len() - pos, 0int,
{
    if pos < data.len() {
        if data[pos] == LOWER_I {
            lemma_find_from(data, pos + 1, LOWER_E);
        } else if data[pos] == LOWER_L {
            lemma_items_progress(data, pos + 1, seq![]);
        } else if data[pos] == LOWER_D {
            lemma_entries_progress(data, pos + 1, Map::empty());
        } else {
            lemma_bytes_progress(data, pos);
        }
    }
}

proof fn lemma_items_progress(data: Seq<u8>, pos: int, seen: Seq<Tree>)
    requires
        0 <= pos,
    ensures
        items_at(data, pos, seen) matches Ok((t, next)) ==> pos < next <= data.len(),
    decreases data.len() - pos, 1int,
{
    if pos < data.len() && data[pos] != LOWER_E {
        if let Ok((t, next)) = value_at(data, pos) {
            if pos < next <= data.len() {
                lemma_items_progress(data, next, seen.push(t));
            }
        }
    }
}

proof fn lemma_entries_progress(data: Seq<u8>, pos: int, seen: Map<Seq<u8>, Tree>)
    requires
        0 <= pos,
    ensures
        entries_at(data, pos, seen) matches Ok((t, next)) ==> pos < next <= data.len(),
    decreases data.len() - pos, 1int,
{
    if pos < data.len() && data[pos] != LOWER_E {
        if let Ok((key, start, t, next)) = entry_at(data, pos) {
            if pos < next <= data.len() {
                lemma_entries_progress(data, next, seen.insert(key, t));
            }
        }
    }
}

proof fn lemma_entry_progress(data: Seq<u8>, pos: int)
    requires
        0 <= pos,
    ensures
        bytes_at(data, pos) matches Ok((key, start)) ==> pos < start <= data.len(),
        entry_at(data, pos) matches Ok((key, start, t, next)) ==> pos < start < next <= data.len(),
{
    lemma_bytes_progress(data, pos);
    if let Ok((key, start)) = bytes_at(data, pos) {
        lemma_progress(data, start);
    }
}

/// Parse an integer up to `delim`, which is consumed.
fn parse_int_digits(data: &[u8], pos: usize, delim: u8) -> (r: std::result::Result<
    (i64, usize),
    BencodeError,
>)
    requires
        pos <= data.len(),
    ensures
        match int_at(data@, pos as int, delim) {
            Ok((n, next)) => r matches Ok((m, end)) && m == n && end == next && pos < next
                <= data.len(),
            Err(e) => r matches Err(x) && x@ == e,
        },
{
    let mut end: usize = pos;
    while end < data.len() && data[end] != delim
        invariant
            pos <= end <= data.len(),
            forall|j: int| pos <= j < end ==> data@[j] != delim,
        decreases data.len() - end,
    {
        end = end + 1;
    }
    proof {
        lemma_find_from(data@, pos as int, delim);
    }
    if end == data.len() {
        return Err(BencodeError::UnterminatedInteger);
    }
    let text = slice_subrange(data, pos, end);
    match checked_utf8(text) {
        Err(reason) => Err(BencodeError::NonUtf8Integer { reason }),
        Ok(shown) => match parse_i64(text) {
            Some(n) => Ok((n, end + 1)),
            None => {
                proof {
                    vstd::utf8::encode_utf8_decode_utf8(shown@);
                }
                Err(
                    BencodeError::InvalidInteger {
                        text: shown.to_owned(),
                        cause: int_fault(text),
                    },
                )
            },
        },
    }
}

/// Parse a byte string: `<length>:<bytes>`.
fn parse_bytes(data: &[u8], pos: usize) -> (r: std::result::Result<(Vec<u8>, usize), BencodeError>)
    requires
        pos <= data.len(),
    ensures
        match bytes_at(data@, pos as int) {
            Ok((b, next)) => r matches Ok((v, n)) && v@ == b && n == next && pos < n <= data.len(),
            Err(e) => r matches Err(x) && x@ == e,
        },
{
    match parse_int_digits(data, pos, COLON) {
        Err(e) => Err(e),
        Ok((n, start)) => {
            if n < 0 {
                return Err(BencodeError::NegativeLength);
            }
            if n as u64 > (data.len() - start) as u64 {
                return Err(
                    BencodeError::LengthExceedsInput { len: n as u64, offset: start },
                );
            }
            let len: usize = n as usize;
            Ok((copy_range(data, start, start + len), start + len))
        },
    }
}

/// Parse a value of any kind.
fn parse_value(data: &[u8], pos: usize) -> (r: std::result::Result<(Value, usize), BencodeError>)
    requires
        pos <= data.len(),
    ensures
        match value_at(data@, pos as int) {
            Ok((t, next)) => r matches Ok((v, n)) && v@ == t && n == next && pos < n <= data.len(),
            Err(e) => r matches Err(x) && x@ == e,
        },
    decreases data.len() - pos, 0int,
{
    proof {
        lemma_progress(data@, pos as int);
    }
    if pos == data.len() {
        return Err(BencodeError::UnexpectedEnd);
    }
    let b = data[pos];
    if b == LOWER_I {
        match parse_int_digits(data, pos + 1, LOWER_E) {
            Ok((n, next)) => Ok((Value::Int(n), next)),
            Err(e) => Err(e),
        }
    } else if b == LOWER_L {
        parse_list(data, pos + 1)
    } else if b == LOWER_D {
        parse_dict(data, pos + 1)
    } else if b >= 0x30 && b <= 0x39 {
        match parse_bytes(data, pos) {
            Ok((v, next)) => Ok((Value::Bytes(v), next)),
            Err(e) => Err(e),
        }
    } else {
        Err(BencodeError::UnexpectedByte { byte: b, offset: pos })
    }
}

/// Parse the items of a list and its end.
fn parse_list(data: &[u8], from: usize) -> (r: std::result::Result<(Value, usize), BencodeError>)
    requires
        from <= data.len(),
    ensures
        match items_at(data@, from as int, seq![]) {
            Ok((t, next)) => r matches Ok((v, n)) && v@ == t && n == next && from < n <= data.len(),
            Err(e) => r matches Err(x) && x@ == e,
        },
    decreases data.len() - from, 1int,
{
    let mut list: Vec<Value> = Vec::new();
    let mut pos: usize = from;
    assert(trees_of(list@) =~= seq![]);
    while pos < data.len() && data[pos] != LOWER_E
        invariant
            from <= pos <= data.len(),
            items_at(data@, from as int, seq![]) == items_at(data@, pos as int, trees_of(list@)),
        decreases data.len() - pos,
    {
        match parse_value(data, pos) {
            Err(e) => {
                return Err(e);
            },
            Ok((v, next)) => {
                let ghost before = list@;
                list.push(v);
                assert(list@.drop_last() =~= before);
                pos = next;
            },
        }
    }
    if pos == data.len() {
        return Err(BencodeError::UnterminatedList);
    }
    Ok((Value::List(list), pos + 1))
}

/// Parse the entries of a dictionary and its end.
fn parse_dict(data: &[u8], from: usize) -> (r: std::result::Result<(Value, usize), BencodeError>)
    requires
        from <= data.len(),
    ensures
        match entries_at(data@, from as int, Map::empty()) {
            Ok((t, next)) => r matches Ok((v, n)) && v@ == t && n == next && from < n <= data.len(),
            Err(e) => r matches Err(x) && x@ == e,
        },
    decreases data.len() - from, 1int,
{
    let mut dict = Dict::new();
    let mut pos: usize = from;
    while pos < data.len() && data[pos] != LOWER_E
        invariant
            from <= pos <= data.len(),
            entries_at(data@, from as int, Map::empty()) == entries_at(data@, pos as int, dict@),
        decreases data.len() - pos,
    {
        proof {
            lemma_entry_progress(data@, pos as int);
        }
        match parse_bytes(data, pos) {
            Err(e) => {
                return Err(e);
            },
            Ok((key, start)) => match parse_value(data, start) {
                Err(e) => {
                    return Err(e);
                },
                Ok((v, next)) => {
                    dict.insert(key, v);
                    pos = next;
                },
            },
        }
    }
    if pos == data.len() {
        return Err(BencodeError::UnterminatedDict);
    }
    Ok((Value::Dict(dict), pos + 1))
}

/// Decode bencode data. What follows the first value is ignored.
pub fn decode(data: &[u8]) -> (r: Result<Value>)
    ensures
        match value_at(data@, 0) {
            Ok((t, next)) => r matches Ok(v) && v@ == t,
            Err(e) => r matches Err(x) && x@ == Error::Bencode(e),
        },
{
    match parse_value(data, 0) {
        Ok((v, _)) => Ok(v),
        Err(e) => Err(Error::Bencode(e)),
    }
}

/// Decode a `.torrent` file and return both the parsed value tree **and** the
/// byte range `[start, end)` of the raw bencoded "info" dict (needed to
/// compute the info_hash without re-encoding).
pub fn decode_torrent(data: &[u8]) -> (r: Result<(Value, Option<(usize, usize)>)>)
    ensures
        match torrent_of(data@) {
            Ok((t, info)) => r matches Ok((v, range)) && v@ == t && range == info,
            Err(e) => r matches Err(x) && x@ == Error::Bencode(e),
        },
        r matches Ok((_, Some((start, end)))) ==> start <= end <= data.len(),
{
    if data.len() == 0 || data[0] != LOWER_D {
        return Err(Error::Bencode(BencodeError::TorrentNotDict));
    }
    let mut dict = Dict::new();
    let mut info: Option<(usize, usize)> = None;
    let mut pos: usize = 1;
    while pos < data.len() && data[pos] != LOWER_E
        invariant
            0 < pos <= data.len(),
            torrent_of(data@) == top_entries_at(data@, pos as int, dict@, info),
            info matches Some((start, end)) ==> start <= end <= data.len(),
        decreases data.len() - pos,
    {
        proof {
            lemma_entry_progress(data@, pos as int);
        }
        match parse_bytes(data, pos) {
            Err(e) => {
                return Err(Error::Bencode(e));
            },
            Ok((key, start)) => match parse_value(data, start) {
                Err(e) => {
                    return Err(Error::Bencode(e));
                },
                Ok((v, next)) => {
                    if same_bytes(key.as_slice(), "info".as_bytes()) {
                        info = Some((start, next));
                    }
                    dict.insert(key, v);
                    pos = next;
                },
            },
        }
    }
    if pos == data.len() {
        return Err(Error::Bencode(BencodeError::UnterminatedTopLevelDict));
    }
    Ok((Value::Dict(dict), info))
}

// Encoding

/// The bytes of a byte string.
pub open spec fn encode_bytes(b: Seq<u8>) -> Seq<u8> {
    decimal(b.len()) + seq![COLON] + b
}

/// Whether keys stand in strictly ascending order.
pub open spec fn ascending(keys: Seq<Seq<u8>>) -> bool {
    forall|i: int, j: int| 0 <= i < j < keys.len() ==> precedes(#[trigger] keys[i], #[trigger] keys[j])
}

/// The keys of a finite map, in ascending order.
pub open spec fn sorted_keys(m: Map<Seq<u8>, Tree>) -> Seq<Seq<u8>> {
    choose|keys: Seq<Seq<u8>>| ascending(keys) && keys.to_set() == m.dom()
}

/// The canonical bytes of a value: the keys of a dictionary in ascending order.
pub open spec fn encode(t: Tree) -> Seq<u8>
    decreases t, 0nat,
{
    match t {
        Tree::Bytes(b) => encode_bytes(b),
        Tree::Int(i) => seq![LOWER_I] + signed_decimal(i as int) + seq![LOWER_E],
        Tree::List(l) => seq![LOWER_L] + encode_items(l) + seq![LOWER_E],
        Tree::Dict(m) => seq![LOWER_D] + encode_entries(m, sorted_keys(m)) + seq![LOWER_E],
    }
}

/// The bytes of the items of a list.
pub open spec fn encode_items(l: Seq<Tree>) -> Seq<u8>
    decreases l, 0nat,
{
    if l.len() == 0 {
        seq![]
    } else {
        encode_items(l.drop_last()) + encode(l.last())
    }
}

/// The bytes of some entries of a finite dictionary, in the order given.
pub open spec fn encode_entries(m: Map<Seq<u8>, Tree>, keys: Seq<Seq<u8>>) -> Seq<u8>
    decreases m, keys.len(),
{
    if keys.len() == 0 || !m.dom().finite() || !m.contains_key(keys.last()) {
        seq![]
    } else {
        encode_entries(m, keys.drop_last()) + encode_bytes(keys.last()) + encode(m[keys.last()])
    }
}

/// Whether every dictionary in a value has finitely many keys.
pub open spec fn finite(t: Tree) -> bool
    decreases t,
{
    match t {
        Tree::List(l) => forall|i: int| 0 <= i < l.len() ==> finite(#[trigger] l[i]),
        Tree::Dict(m) => m.dom().finite() && forall|k: Seq<u8>| #[trigger]
            m.contains_key(k) ==> finite(m[k]),
        _ => true,
    }
}

/// Whether the length of every byte string in a value is a 64-bit integer, as
/// it is of every byte string in memory.
pub open spec fn lengths_fit(t: Tree) -> bool
    decreases t,
{
    match t {
        Tree::Bytes(b) => b.len() <= i64::MAX,
        Tree::Int(_) => true,
        Tree::List(l) => forall|i: int| 0 <= i < l.len() ==> lengths_fit(#[trigger] l[i]),
        Tree::Dict(m) => m.dom().finite() && forall|k: Seq<u8>| #[trigger]
            m.contains_key(k) ==> k.len() <= i64::MAX && lengths_fit(m[k]),
    }
}

/// Every value that a program can hold is finite.
pub proof fn lemma_value_finite(v: Value)
    ensures
        finite(v@),
    decreases v,
{
    match v {
        Value::List(l) => {
            lemma_trees_of(l@);
            let items = trees_of(l@);
            assert(v@ == Tree::List(items));
            assert forall|i: int| 0 <= i < items.len() implies finite(#[trigger] items[i]) by {
                lemma_value_finite(l@[i]);
                assert(items[i] == l@[i]@);
            }
        },
        Value::Dict(d) => {
            lemma_entries_finite(d.entries@);
        },
        _ => {},
    }
}

proof fn lemma_entries_finite(s: Seq<(Vec<u8>, Value)>)
    ensures
        entry_map(s).dom().finite(),
        forall|k: Seq<u8>| #[trigger] entry_map(s).contains_key(k) ==> finite(entry_map(s)[k]),
    decreases s,
{
    if s.len() > 0 {
        lemma_entries_finite(s.drop_last());
        lemma_value_finite(s.last().1);
    }
}

proof fn lemma_ascending_unique(a: Seq<Seq<u8>>, b: Seq<Seq<u8>>)
    requires
        ascending(a),
        ascending(b),
        a.to_set() == b.to_set(),
    ensures
        a == b,
    decreases a.len(),
{
    if a.len() == 0 {
        if b.len() > 0 {
            assert(b.to_set().contains(b[0]));
            assert(a.to_set().contains(b[0]));
        }
        assert(a =~= b);
    } else {
        assert(a.to_set().contains(a.last()));
        assert(b.to_set().contains(a.last()));
        let i = choose|i: int| 0 <= i < b.len() && b[i] == a.last();
        assert(b.to_set().contains(b.last()));
        assert(a.to_set().contains(b.last()));
        let j = choose|j: int| 0 <= j < a.len() && a[j] == b.last();
        if i < b.len() - 1 && j < a.len() - 1 {
            lemma_precedes_asymmetric(a.last(), b.last());
        }
        assert(a.last() == b.last());
        let c = a.drop_last();
        let d = b.drop_last();
        assert forall|k: Seq<u8>| c.to_set().contains(k) == d.to_set().contains(k) by {
            if c.contains(k) {
                let x = choose|x: int| 0 <= x < c.len() && c[x] == k;
                assert(a[x] == k);
                assert(a.to_set().contains(k));
                assert(b.to_set().contains(k));
                let y = choose|y: int| 0 <= y < b.len() && b[y] == k;
                if y == b.len() - 1 {
                    lemma_precedes_irreflexive(k);
                }
                assert(d[y] == k);
            }
            if d.contains(k) {
                let x = choose|x: int| 0 <= x < d.len() && d[x] == k;
                assert(b[x] == k);
                assert(b.to_set().contains(k));
                assert(a.to_set().contains(k));
                let y = choose|y: int| 0 <= y < a.len() && a[y] == k;
                if y == a.len() - 1 {
                    lemma_precedes_irreflexive(k);
                }
                assert(c[y] == k);
            }
        }
        assert(c.to_set() =~= d.to_set());
        lemma_ascending_unique(c, d);
        assert(a =~= c.push(a.last()));
        assert(b =~= d.push(b.last()));
    }
}

/// The keys that stand in ascending order are the sorted keys.
pub proof fn lemma_sorted_keys_are(m: Map<Seq<u8>, Tree>, keys: Seq<Seq<u8>>)
    requires
        ascending(keys),
        keys.to_set() == m.dom(),
    ensures
        sorted_keys(m) == keys,
{
    lemma_ascending_unique(sorted_keys(m), keys);
}

proof fn lemma_insert_ascending(keys: Seq<Seq<u8>>, key: Seq<u8>, i: int)
    requires
        ascending(keys),
        0 <= i <= keys.len(),
        !keys.contains(key),
        forall|j: int| 0 <= j < i ==> precedes(#[trigger] keys[j], key),
    ensures
        exists|r: Seq<Seq<u8>>| ascending(r) && #[trigger] r.to_set() == keys.to_set().insert(key),
    decreases keys.len() - i,
{
    if i < keys.len() && !precedes(key, keys[i]) {
        lemma_precedes_total(key, keys[i]);
        lemma_insert_ascending(keys, key, i + 1);
    } else {
        let r = keys.insert(i, key);
        assert forall|j: int| i <= j < keys.len() implies precedes(key, #[trigger] keys[j]) by {
            if j > i {
                lemma_precedes_transitive(key, keys[i], keys[j]);
            }
        }
        assert forall|x: int, y: int| 0 <= x < y < r.len() implies precedes(
            #[trigger] r[x],
            #[trigger] r[y],
        ) by {
            let u = if x < i {
                x
            } else {
                x - 1
            };
            let w = if y < i {
                y
            } else {
                y - 1
            };
            assert(x == i || r[x] == keys[u]);
            assert(y == i || r[y] == keys[w]);
        }
        assert forall|k: Seq<u8>|
            r.to_set().contains(k) == keys.to_set().insert(key).contains(k) by {
            if r.contains(k) {
                let x = choose|x: int| 0 <= x < r.len() && r[x] == k;
                if x < i {
                    assert(keys[x] == k);
                } else if x > i {
                    assert(keys[x - 1] == k);
                }
            }
            if keys.contains(k) {
                let x = choose|x: int| 0 <= x < keys.len() && keys[x] == k;
                if x < i {
                    assert(r[x] == k);
                } else {
                    assert(r[x + 1] == k);
                }
            }
            assert(r[i] == key);
        }
        assert(r.to_set() =~= keys.to_set().insert(key));
    }
}

proof fn lemma_ascending_exists(s: Set<Seq<u8>>)
    requires
        s.finite(),
    ensures
        exists|keys: Seq<Seq<u8>>| ascending(keys) && #[trigger] keys.to_set() == s,
    decreases s.len(),
{
    if s.len() == 0 {
        let keys = Seq::<Seq<u8>>::empty();
        assert(ascending(keys));
        assert(keys.to_set() =~= s);
    } else {
        let key = s.choose();
        lemma_ascending_exists(s.remove(key));
        let keys = choose|keys: Seq<Seq<u8>>|
            ascending(keys) && #[trigger] keys.to_set() == s.remove(key);
        assert(!keys.to_set().contains(key));
        lemma_insert_ascending(keys, key, 0);
        assert(s.remove(key).insert(key) =~= s);
    }
}

/// The sorted keys of a finite map are its keys, in ascending order.
pub proof fn lemma_sorted_keys(m: Map<Seq<u8>, Tree>)
    requires
        m.dom().finite(),
    ensures
        ascending(sorted_keys(m)),
        sorted_keys(m).to_set() == m.dom(),
{
    lemma_ascending_exists(m.dom());
}

fn append_byte_string(out: &mut Vec<u8>, b: &[u8])
    ensures
        final(out)@ == old(out)@ + encode_bytes(b@),
{
    append_decimal(out, b.len() as u64);
    out.push(COLON);
    append_bytes(out, b);
    assert(out@ =~= old(out)@ + encode_bytes(b@));
}

// Copies

fn copy_value(v: &Value) -> (r: Value)
    ensures
        r@ == v@,
    decreases v,
{
    match v {
        Value::Bytes(b) => Value::Bytes(slice_to_vec(b.as_slice())),
        Value::Int(i) => Value::Int(*i),
        Value::List(l) => Value::List(copy_list(l)),
        Value::Dict(d) => {
            proof {
                use_type_invariant(d);
            }
            Value::Dict(Dict { entries: copy_entries(&d.entries) })
        },
    }
}

fn copy_list(l: &Vec<Value>) -> (r: Vec<Value>)
    ensures
        trees_of(r@) == trees_of(l@),
    decreases l,
{
    let mut r: Vec<Value> = Vec::new();
    let mut i: usize = 0;
    assert(l@.take(0) =~= r@);
    while i < l.len()
        invariant
            i <= l.len(),
            r@.len() == i,
            trees_of(r@) == trees_of(l@.take(i as int)),
        decreases l.len() - i,
    {
        let ghost before = r@;
        r.push(copy_value(&l[i]));
        i = i + 1;
        assert(r@.drop_last() =~= before);
        assert(l@.take(i as int).drop_last() =~= l@.take(i - 1));
    }
    assert(l@.take(i as int) =~= l@);
    r
}

fn copy_entries(s: &Vec<(Vec<u8>, Value)>) -> (r: Vec<(Vec<u8>, Value)>)
    requires
        sorted(s@),
    ensures
        sorted(r@),
        entry_map(r@) == entry_map(s@),
    decreases s,
{
    let mut r: Vec<(Vec<u8>, Value)> = Vec::new();
    let mut i: usize = 0;
    assert(s@.take(0) =~= r@);
    while i < s.len()
        invariant
            i <= s.len(),
            sorted(s@),
            r@.len() == i,
            forall|j: int| 0 <= j < i ==> #[trigger] r@[j].0@ == s@[j].0@,
            entry_map(r@) == entry_map(s@.take(i as int)),
        decreases s.len() - i,
    {
        let ghost before = r@;
        let entry = &s[i];
        r.push((slice_to_vec(entry.0.as_slice()), copy_value(&entry.1)));
        i = i + 1;
        assert(r@.drop_last() =~= before);
        assert(s@.take(i as int).drop_last() =~= s@.take(i - 1));
    }
    assert(s@.take(i as int) =~= s@);
    r
}

impl Clone for Value {
    fn clone(&self) -> (r: Value)
        ensures
            r@ == self@,
    {
        copy_value(self)
    }
}

impl Clone for Dict {
    fn clone(&self) -> (r: Dict)
        ensures
            r@ == self@,
    {
        proof {
            use_type_invariant(self);
        }
        Dict { entries: copy_entries(&self.entries) }
    }
}

/// Append the bytes of a value.
fn encode_value(v: &Value, out: &mut Vec<u8>)
    ensures
        final(out)@ == old(out)@ + encode(v@),
    decreases v,
{
    match v {
        Value::Bytes(b) => append_byte_string(out, b.as_slice()),
        Value::Int(i) => {
            out.push(LOWER_I);
            append_signed_decimal(out, *i);
            out.push(LOWER_E);
            assert(out@ =~= old(out)@ + encode(v@));
        },
        Value::List(l) => {
            out.push(LOWER_L);
            encode_list(l, out);
            out.push(LOWER_E);
            assert(out@ =~= old(out)@ + encode(v@));
        },
        Value::Dict(d) => {
            proof {
                use_type_invariant(d);
            }
            out.push(LOWER_D);
            encode_dict(&d.entries, out);
            out.push(LOWER_E);
            assert(out@ =~= old(out)@ + encode(v@));
        },
    }
}

fn encode_list(l: &Vec<Value>, out: &mut Vec<u8>)
    ensures
        final(out)@ == old(out)@ + encode_items(trees_of(l@)),
    decreases l,
{
    let mut i: usize = 0;
    assert(trees_of(l@.take(0)) =~= seq![]);
    while i < l.len()
        invariant
            i <= l.len(),
            out@ == old(out)@ + encode_items(trees_of(l@.take(i as int))),
        decreases l.len() - i,
    {
        let ghost before = out@;
        encode_value(&l[i], out);
        i = i + 1;
        proof {
            let s = l@.take(i as int);
            assert(s.drop_last() =~= l@.take(i - 1));
            assert(trees_of(s).drop_last() =~= trees_of(s.drop_last()));
            assert(out@ =~= old(out)@ + encode_items(trees_of(s)));
        }
    }
    assert(l@.take(i as int) =~= l@);
}

spec fn entry_keys(s: Seq<(Vec<u8>, Value)>) -> Seq<Seq<u8>> {
    Seq::new(s.len(), |i: int| s[i].0@)
}

proof fn lemma_entry_keys(s: Seq<(Vec<u8>, Value)>)
    requires
        sorted(s),
    ensures
        sorted_keys(entry_map(s)) == entry_keys(s),
{
    let keys = entry_keys(s);
    lemma_entry_map(s);
    assert forall|i: int, j: int| 0 <= i < j < keys.len() implies precedes(
        #[trigger] keys[i],
        #[trigger] keys[j],
    ) by {
        assert(precedes(s[i].0@, s[j].0@));
    }
    assert forall|k: Seq<u8>| keys.to_set().contains(k) == entry_map(s).dom().contains(k) by {
        if keys.contains(k) {
            let i = choose|i: int| 0 <= i < keys.len() && keys[i] == k;
            assert(s[i].0@ == k);
        }
        if entry_map(s).contains_key(k) {
            let i = choose|i: int| 0 <= i < s.len() && #[trigger] s[i].0@ == k;
            assert(keys[i] == k);
        }
    }
    assert(keys.to_set() =~= entry_map(s).dom());
    lemma_sorted_keys_are(entry_map(s), keys);
}

fn encode_dict(entries: &Vec<(Vec<u8>, Value)>, out: &mut Vec<u8>)
    requires
        sorted(entries@),
    ensures
        final(out)@ == old(out)@ + encode_entries(
            entry_map(entries@),
            sorted_keys(entry_map(entries@)),
        ),
    decreases entries,
{
    let ghost m = entry_map(entries@);
    let ghost keys = entry_keys(entries@);
    proof {
        lemma_entry_keys(entries@);
        lemma_entry_map(entries@);
        lemma_entry_map_len(entries@);
    }
    let mut i: usize = 0;
    while i < entries.len()
        invariant
            i <= entries.len(),
            m == entry_map(entries@),
            m.dom().finite(),
            keys == entry_keys(entries@),
            forall|j: int|
                0 <= j < entries@.len() ==> m.contains_key(#[trigger] entries@[j].0@)
                    && m[entries@[j].0@] == tree_of(entries@[j].1),
            out@ == old(out)@ + encode_entries(m, keys.take(i as int)),
        decreases entries.len() - i,
    {
        let entry = &entries[i];
        append_byte_string(out, entry.0.as_slice());
        encode_value(&entry.1, out);
        proof {
            let s = keys.take(i + 1);
            assert(s.drop_last() =~= keys.take(i as int));
            assert(s.last() == entries@[i as int].0@);
            assert(out@ =~= old(out)@ + encode_entries(m, s));
        }
        i = i + 1;
    }
    assert(keys.take(i as int) =~= keys);
}

/// The canonical encoding of a value.
pub fn bencode_encode(v: &Value) -> (out: Vec<u8>)
    ensures
        out@ == encode(v@),
{
    let mut out: Vec<u8> = Vec::new();
    encode_value(v, &mut out);
    assert(out@ =~= encode(v@));
    out
}

/// The encoding of a dictionary with one entry.
pub proof fn lemma_encode_one(k: Seq<u8>, v: Tree)
    ensures
        encode(Tree::Dict(map![k => v])) == seq![LOWER_D] + encode_bytes(k) + encode(v) + seq![
            LOWER_E,
        ],
{
    let m = map![k => v];
    let keys = seq![k];
    assert(keys.to_set() =~= m.dom()) by {
        assert(keys[0] == k);
    }
    lemma_sorted_keys_are(m, keys);
    assert(keys.drop_last() =~= seq![]);
    assert(encode_entries(m, seq![]) =~= seq![]);
    assert(encode_entries(m, keys) =~= encode_bytes(k) + encode(v));
    assert(encode(Tree::Dict(m)) =~= seq![LOWER_D] + encode_bytes(k) + encode(v) + seq![LOWER_E]);
}

/// The encoding of a dictionary with two entries, the keys in ascending order.
pub proof fn lemma_encode_two(k1: Seq<u8>, v1: Tree, k2: Seq<u8>, v2: Tree)
    requires
        precedes(k1, k2),
    ensures
        encode(Tree::Dict(map![k1 => v1, k2 => v2])) == seq![LOWER_D] + encode_bytes(k1) + encode(
            v1,
        ) + encode_bytes(k2) + encode(v2) + seq![LOWER_E],
{
    lemma_precedes_asymmetric(k1, k2);
    let m = map![k1 => v1, k2 => v2];
    let keys = seq![k1, k2];
    assert(keys.to_set() =~= m.dom()) by {
        assert(keys[0] == k1);
        assert(keys[1] == k2);
    }
    lemma_sorted_keys_are(m, keys);
    let first = keys.drop_last();
    assert(first =~= seq![k1]);
    assert(first.drop_last() =~= seq![]);
    assert(encode_entries(m, seq![]) =~= seq![]);
    assert(encode_entries(m, first) =~= encode_bytes(k1) + encode(v1));
    assert(encode_entries(m, keys) =~= encode_bytes(k1) + encode(v1) + encode_bytes(k2) + encode(
        v2,
    ));
    assert(encode(Tree::Dict(m)) =~= seq![LOWER_D] + encode_bytes(k1) + encode(v1) + encode_bytes(
        k2,
    ) + encode(v2) + seq![LOWER_E]);
}

// Decoding undoes encoding

/// Whether `s` stands in `data` at `pos`.
pub open spec fn stands_at(data: Seq<u8>, pos: int, s: Seq<u8>) -> bool {
    &&& 0 <= pos
    &&& pos + s.len() <= data.len()
    &&& data.subrange(pos, pos + s.len()) == s
}

pub(crate) proof fn lemma_stands_parts(data: Seq<u8>, pos: int, a: Seq<u8>, b: Seq<u8>)
    requires
        stands_at(data, pos, a + b),
    ensures
        stands_at(data, pos, a),
        stands_at(data, pos + a.len(), b),
{
    let s = data.subrange(pos, pos + (a + b).len());
    assert(data.subrange(pos, pos + a.len()) =~= s.subrange(0, a.len() as int));
    assert(s.subrange(0, a.len() as int) =~= a);
    assert(data.subrange(pos + a.len(), pos + a.len() + b.len()) =~= s.subrange(
        a.len() as int,
        s.len() as int,
    ));
    assert(s.subrange(a.len() as int, s.len() as int) =~= b);
}

pub(crate) proof fn lemma_stands_byte(data: Seq<u8>, pos: int, b: u8)
    requires
        stands_at(data, pos, seq![b]),
    ensures
        data[pos] == b,
{
    assert(data.subrange(pos, pos + 1)[0] == b);
}

proof fn lemma_int_at(data: Seq<u8>, pos: int, n: i64, delim: u8)
    requires
        stands_at(data, pos, signed_decimal(n as int) + seq![delim]),
        !is_digit(delim),
        delim != MINUS,
    ensures
        int_at(data, pos, delim) == Ok::<(i64, int), BencodeError<Seq<char>>>(
            (n, pos + signed_decimal(n as int).len() + 1),
        ),
{
    let text = signed_decimal(n as int);
    lemma_stands_parts(data, pos, text, seq![delim]);
    lemma_stands_byte(data, pos + text.len(), delim);
    lemma_i64_of_signed_decimal(n);
    assert forall|j: int| pos <= j < pos + text.len() implies data[j] != delim by {
        assert(data.subrange(pos, pos + text.len())[j - pos] == text[j - pos]);
    }
    lemma_find_from_is(data, pos, delim, pos + text.len());
    assert forall|i: int| 0 <= i < text.len() implies #[trigger] text[i] < 0x80 by {
        assert(is_digit(text[i]) || text[i] == MINUS);
    }
    lemma_ascii_utf8(text);
}

/// A byte string whose encoding stands in the data is what is read there.
pub proof fn lemma_bytes_at(data: Seq<u8>, pos: int, b: Seq<u8>)
    requires
        stands_at(data, pos, encode_bytes(b)),
        b.len() <= i64::MAX,
    ensures
        bytes_at(data, pos) == Ok::<(Seq<u8>, int), BencodeError<Seq<char>>>(
            (b, pos + encode_bytes(b).len()),
        ),
        is_digit(data[pos]),
{
    let n = b.len() as i64;
    let head = decimal(b.len()) + seq![COLON];
    lemma_stands_parts(data, pos, head, b);
    lemma_int_at(data, pos, n, COLON);
    lemma_stands_parts(data, pos, decimal(b.len()), seq![COLON]);
    lemma_decimal(b.len());
    assert(data.subrange(pos, pos + decimal(b.len()).len())[0] == data[pos]);
    assert(is_digit(decimal(b.len())[0]));
}

pub(crate) proof fn lemma_encode_items_take(l: Seq<Tree>, i: int)
    requires
        0 <= i < l.len(),
    ensures
        encode_items(l.take(i + 1)) == encode_items(l.take(i)) + encode(l[i]),
{
    assert(l.take(i + 1).drop_last() =~= l.take(i));
}

pub(crate) proof fn lemma_encode_items_prefix(l: Seq<Tree>, i: int) -> (rest: Seq<u8>)
    requires
        0 <= i <= l.len(),
    ensures
        encode_items(l) == encode_items(l.take(i)) + rest,
    decreases l.len() - i,
{
    if i == l.len() {
        assert(l.take(i) =~= l);
        assert(encode_items(l) =~= encode_items(l.take(i)) + Seq::<u8>::empty());
        Seq::empty()
    } else {
        let tail = lemma_encode_items_prefix(l, i + 1);
        lemma_encode_items_take(l, i);
        assert(encode_items(l) =~= encode_items(l.take(i)) + (encode(l[i]) + tail));
        encode(l[i]) + tail
    }
}

proof fn lemma_items_at(data: Seq<u8>, pos: int, l: Seq<Tree>, i: int)
    requires
        stands_at(data, pos, encode_items(l) + seq![LOWER_E]),
        forall|j: int| 0 <= j < l.len() ==> finite(#[trigger] l[j]) && lengths_fit(l[j]),
        0 <= i <= l.len(),
    ensures
        items_at(data, pos + encode_items(l.take(i)).len(), l.take(i)) == Ok::<
            (Tree, int),
            BencodeError<Seq<char>>,
        >((Tree::List(l), pos + encode_items(l).len() + 1)),
    decreases l, 1nat, l.len() - i,
{
    lemma_stands_parts(data, pos, encode_items(l), seq![LOWER_E]);
    let here = pos + encode_items(l.take(i)).len();
    if i == l.len() {
        assert(l.take(i) =~= l);
        lemma_stands_byte(data, here, LOWER_E);
    } else {
        let rest = lemma_encode_items_prefix(l, i + 1);
        lemma_encode_items_take(l, i);
        lemma_stands_parts(data, pos, encode_items(l.take(i + 1)), rest);
        lemma_stands_parts(data, pos, encode_items(l.take(i)), encode(l[i]));
        lemma_value_at(data, here, l[i]);
        lemma_items_at(data, pos, l, i + 1);
        assert(l.take(i).push(l[i]) =~= l.take(i + 1));
        lemma_encode_first(l[i]);
        assert(data.subrange(here, here + encode(l[i]).len())[0] == data[here]);
    }
}

/// The first byte of a value is not the byte that ends a list or a dictionary.
pub(crate) proof fn lemma_encode_first(t: Tree)
    ensures
        encode(t).len() > 0,
        encode(t)[0] != LOWER_E,
{
    if let Tree::Bytes(b) = t {
        lemma_decimal(b.len());
        assert(is_digit(decimal(b.len())[0]));
    }
}

spec fn submap(m: Map<Seq<u8>, Tree>, keys: Seq<Seq<u8>>) -> Map<Seq<u8>, Tree> {
    Map::new(|k: Seq<u8>| keys.contains(k), |k: Seq<u8>| m[k])
}

pub(crate) proof fn lemma_encode_entries_take(m: Map<Seq<u8>, Tree>, keys: Seq<Seq<u8>>, i: int)
    requires
        0 <= i < keys.len(),
        m.dom().finite(),
        m.contains_key(keys[i]),
    ensures
        encode_entries(m, keys.take(i + 1)) == encode_entries(m, keys.take(i)) + encode_bytes(
            keys[i],
        ) + encode(m[keys[i]]),
{
    assert(keys.take(i + 1).drop_last() =~= keys.take(i));
}

pub(crate) proof fn lemma_encode_entries_prefix(m: Map<Seq<u8>, Tree>, keys: Seq<Seq<u8>>, i: int) -> (rest:
    Seq<u8>)
    requires
        0 <= i <= keys.len(),
        m.dom().finite(),
        forall|j: int| 0 <= j < keys.len() ==> m.contains_key(#[trigger] keys[j]),
    ensures
        encode_entries(m, keys) == encode_entries(m, keys.take(i)) + rest,
    decreases keys.len() - i,
{
    if i == keys.len() {
        assert(keys.take(i) =~= keys);
        assert(encode_entries(m, keys) =~= encode_entries(m, keys.take(i)) + Seq::<u8>::empty());
        Seq::empty()
    } else {
        let tail = lemma_encode_entries_prefix(m, keys, i + 1);
        lemma_encode_entries_take(m, keys, i);
        let rest = encode_bytes(keys[i]) + encode(m[keys[i]]) + tail;
        assert(encode_entries(m, keys) =~= encode_entries(m, keys.take(i)) + rest);
        rest
    }
}

proof fn lemma_entries_at(
    data: Seq<u8>,
    pos: int,
    m: Map<Seq<u8>, Tree>,
    keys: Seq<Seq<u8>>,
    i: int,
)
    requires
        stands_at(data, pos, encode_entries(m, keys) + seq![LOWER_E]),
        m.dom().finite(),
        keys.to_set() == m.dom(),
        forall|k: Seq<u8>| #[trigger]
            m.contains_key(k) ==> k.len() <= i64::MAX && finite(m[k]) && lengths_fit(m[k]),
        0 <= i <= keys.len(),
    ensures
        entries_at(
            data,
            pos + encode_entries(m, keys.take(i)).len(),
            submap(m, keys.take(i)),
        ) == Ok::<(Tree, int), BencodeError<Seq<char>>>(
            (Tree::Dict(m), pos + encode_entries(m, keys).len() + 1),
        ),
    decreases m, 1nat, keys.len() - i,
{
    lemma_stands_parts(data, pos, encode_entries(m, keys), seq![LOWER_E]);
    assert forall|j: int| 0 <= j < keys.len() implies m.contains_key(#[trigger] keys[j]) by {
        assert(keys.to_set().contains(keys[j]));
    }
    let here = pos + encode_entries(m, keys.take(i)).len();
    if i == keys.len() {
        assert(keys.take(i) =~= keys);
        assert forall|k: Seq<u8>| keys.contains(k) == m.contains_key(k) by {
            assert(keys.to_set().contains(k) == m.dom().contains(k));
        }
        assert(submap(m, keys) =~= m);
        lemma_stands_byte(data, here, LOWER_E);
    } else {
        let rest = lemma_encode_entries_prefix(m, keys, i + 1);
        lemma_encode_entries_take(m, keys, i);
        let key = encode_bytes(keys[i]);
        let value = encode(m[keys[i]]);
        lemma_stands_parts(data, pos, encode_entries(m, keys.take(i + 1)), rest);
        lemma_stands_parts(data, pos, encode_entries(m, keys.take(i)) + key, value);
        lemma_stands_parts(data, pos, encode_entries(m, keys.take(i)), key);
        lemma_bytes_at(data, here, keys[i]);
        lemma_value_at(data, here + key.len(), m[keys[i]]);
        lemma_entries_at(data, pos, m, keys, i + 1);
        lemma_encode_first(m[keys[i]]);
        let next = here + key.len() + value.len();
        assert(entry_at(data, here) == Ok::<(Seq<u8>, int, Tree, int), BencodeError<Seq<char>>>(
            (keys[i], here + key.len(), m[keys[i]], next),
        ));
        assert(data[here] != LOWER_E);
        assert(next == pos + encode_entries(m, keys.take(i + 1)).len());
        let before = keys.take(i);
        let after = keys.take(i + 1);
        assert forall|k: Seq<u8>| after.contains(k) == (before.contains(k) || k == keys[i]) by {
            if after.contains(k) {
                let x = choose|x: int| 0 <= x < after.len() && after[x] == k;
                if x < i {
                    assert(before[x] == k);
                }
            }
            if before.contains(k) {
                let x = choose|x: int| 0 <= x < before.len() && before[x] == k;
                assert(after[x] == k);
            }
            assert(after[i] == keys[i]);
        }
        assert(submap(m, before).insert(keys[i], m[keys[i]]) =~= submap(m, after));
    }
}

/// A value whose encoding stands in the data is what is read there.
pub proof fn lemma_value_at(data: Seq<u8>, pos: int, t: Tree)
    requires
        stands_at(data, pos, encode(t)),
        finite(t),
        lengths_fit(t),
    ensures
        value_at(data, pos) == Ok::<(Tree, int), BencodeError<Seq<char>>>((t, pos + encode(t).len())),
    decreases t, 0nat, 0int,
{
    lemma_encode_first(t);
    match t {
        Tree::Bytes(b) => {
            lemma_bytes_at(data, pos, b);
        },
        Tree::Int(n) => {
            let body = signed_decimal(n as int) + seq![LOWER_E];
            assert(encode(t) =~= seq![LOWER_I] + body);
            lemma_stands_parts(data, pos, seq![LOWER_I], body);
            lemma_stands_byte(data, pos, LOWER_I);
            lemma_int_at(data, pos + 1, n, LOWER_E);
        },
        Tree::List(l) => {
            let body = encode_items(l) + seq![LOWER_E];
            assert(encode(t) =~= seq![LOWER_L] + body);
            lemma_stands_parts(data, pos, seq![LOWER_L], body);
            lemma_stands_byte(data, pos, LOWER_L);
            lemma_items_at(data, pos + 1, l, 0);
            assert(l.take(0) =~= seq![]);
        },
        Tree::Dict(m) => {
            let keys = sorted_keys(m);
            lemma_sorted_keys(m);
            let body = encode_entries(m, keys) + seq![LOWER_E];
            assert(encode(t) =~= seq![LOWER_D] + body);
            lemma_stands_parts(data, pos, seq![LOWER_D], body);
            lemma_stands_byte(data, pos, LOWER_D);
            lemma_entries_at(data, pos + 1, m, keys, 0);
            assert(submap(m, keys.take(0)) =~= Map::empty());
        },
    }
}

/// Decoding an encoded value gives the value back, also when more data follows it.
pub proof fn lemma_decode_encode(t: Tree, rest: Seq<u8>)
    requires
        finite(t),
        lengths_fit(t),
    ensures
        value_at(encode(t) + rest, 0) == Ok::<(Tree, int), BencodeError<Seq<char>>>(
            (t, encode(t).len() as int),
        ),
{
    assert((encode(t) + rest).subrange(0, encode(t).len() as int) =~= encode(t));
    lemma_value_at(encode(t) + rest, 0, t);
}

/// A value whose encoding fits into memory has no byte string that does not.
pub proof fn lemma_lengths_fit(t: Tree)
    requires
        finite(t),
        encode(t).len() <= i64::MAX,
    ensures
        lengths_fit(t),
    decreases t,
{
    match t {
        Tree::Bytes(_) => {},
        Tree::Int(_) => {},
        Tree::List(l) => {
            assert forall|i: int| 0 <= i < l.len() implies lengths_fit(#[trigger] l[i]) by {
                let _ = lemma_encode_items_prefix(l, i + 1);
                lemma_encode_items_take(l, i);
                lemma_lengths_fit(l[i]);
            }
        },
        Tree::Dict(m) => {
            let keys = sorted_keys(m);
            lemma_sorted_keys(m);
            assert forall|j: int| 0 <= j < keys.len() implies m.contains_key(#[trigger] keys[j]) by {
                assert(keys.to_set().contains(keys[j]));
            }
            assert forall|k: Seq<u8>| #[trigger] m.contains_key(k) implies k.len() <= i64::MAX
                && lengths_fit(m[k]) by {
                assert(keys.to_set().contains(k));
                let i = choose|i: int| 0 <= i < keys.len() && keys[i] == k;
                let _ = lemma_encode_entries_prefix(m, keys, i + 1);
                lemma_encode_entries_take(m, keys, i);
                lemma_lengths_fit(m[k]);
            }
        },
    }
}

// What is read depends only on the bytes that are read

/// Whether two byte strings hold the same `n` bytes at the given positions.
pub open spec fn agree(a: Seq<u8>, i: int, b: Seq<u8>, j: int, n: int) -> bool {
    &&& 0 <= i
    &&& i + n <= a.len()
    &&& 0 <= j
    &&& j + n <= b.len()
    &&& forall|k: int| 0 <= k < n ==> #[trigger] a[i + k] == b[j + k]
}

proof fn lemma_agree_part(a: Seq<u8>, i: int, b: Seq<u8>, j: int, n: int, from: int, to: int)
    requires
        agree(a, i, b, j, n),
        0 <= from <= to <= n,
    ensures
        agree(a, i + from, b, j + from, to - from),
{
    assert forall|k: int| 0 <= k < to - from implies #[trigger] a[i + from + k] == b[j + from
        + k] by {
        assert(a[i + (from + k)] == b[j + (from + k)]);
    }
}

proof fn lemma_int_local(a: Seq<u8>, i: int, b: Seq<u8>, j: int, delim: u8)
    requires
        int_at(a, i, delim) matches Ok((n, end)) && agree(a, i, b, j, end - i),
    ensures
        int_at(a, i, delim) matches Ok((n, end)) && int_at(b, j, delim) == Ok::<
            (i64, int),
            BencodeError<Seq<char>>,
        >((n, j + (end - i))),
{
    lemma_find_from(a, i, delim);
    let at = find_from(a, i, delim).unwrap();
    let n = at - i;
    assert(a[i + n] == b[j + n]);
    assert forall|x: int| j <= x < j + n implies b[x] != delim by {
        assert(a[i + (x - j)] == b[j + (x - j)]);
    }
    lemma_find_from_is(b, j, delim, j + n);
    let x = a.subrange(i, i + n);
    let y = b.subrange(j, j + n);
    assert forall|k: int| 0 <= k < n implies x[k] == y[k] by {
        assert(a[i + k] == b[j + k]);
    }
    assert(x =~= y);
}

proof fn lemma_bytes_local(a: Seq<u8>, i: int, b: Seq<u8>, j: int)
    requires
        bytes_at(a, i) matches Ok((s, end)) && agree(a, i, b, j, end - i),
    ensures
        bytes_at(a, i) matches Ok((s, end)) && bytes_at(b, j) == Ok::<(Seq<u8>, int), BencodeError<Seq<char>>>(
            (s, j + (end - i)),
        ),
{
    lemma_bytes_progress(a, i);
    lemma_find_from(a, i, COLON);
    let (s, end) = bytes_at(a, i)->Ok_0;
    let (n, start) = int_at(a, i, COLON)->Ok_0;
    lemma_agree_part(a, i, b, j, end - i, 0, start - i);
    lemma_int_local(a, i, b, j, COLON);
    let m = start - i;
    let x = a.subrange(start, end);
    let y = b.subrange(j + m, j + (end - i));
    assert forall|k: int| 0 <= k < end - start implies x[k] == y[k] by {
        assert(a[i + (m + k)] == b[j + (m + k)]);
    }
    assert(x =~= y);
}

/// A value is read the same wherever its bytes stand, whatever surrounds them.
pub proof fn lemma_value_local(a: Seq<u8>, i: int, b: Seq<u8>, j: int)
    requires
        value_at(a, i) matches Ok((t, end)) && agree(a, i, b, j, end - i),
    ensures
        value_at(a, i) matches Ok((t, end)) && value_at(b, j) == Ok::<(Tree, int), BencodeError<Seq<char>>>(
            (t, j + (end - i)),
        ),
    decreases a.len() - i, 0int,
{
    lemma_progress(a, i);
    let (t, end) = value_at(a, i)->Ok_0;
    let n = end - i;
    assert(a[i + 0] == b[j + 0]);
    lemma_agree_part(a, i, b, j, n, 1, n);
    if a[i] == LOWER_I {
        lemma_int_local(a, i + 1, b, j + 1, LOWER_E);
    } else if a[i] == LOWER_L {
        lemma_items_local(a, i + 1, b, j + 1, seq![]);
    } else if a[i] == LOWER_D {
        lemma_entries_local(a, i + 1, b, j + 1, Map::empty());
    } else {
        lemma_bytes_local(a, i, b, j);
    }
}

proof fn lemma_items_local(a: Seq<u8>, i: int, b: Seq<u8>, j: int, seen: Seq<Tree>)
    requires
        items_at(a, i, seen) matches Ok((t, end)) && agree(a, i, b, j, end - i),
    ensures
        items_at(a, i, seen) matches Ok((t, end)) && items_at(b, j, seen) == Ok::<
            (Tree, int),
            BencodeError<Seq<char>>,
        >((t, j + (end - i))),
    decreases a.len() - i, 1int,
{
    lemma_items_progress(a, i, seen);
    let (t, end) = items_at(a, i, seen)->Ok_0;
    assert(a[i + 0] == b[j + 0]);
    if a[i] != LOWER_E {
        let (item, next) = value_at(a, i)->Ok_0;
        lemma_items_progress(a, next, seen.push(item));
        lemma_agree_part(a, i, b, j, end - i, 0, next - i);
        lemma_value_local(a, i, b, j);
        lemma_agree_part(a, i, b, j, end - i, next - i, end - i);
        lemma_items_local(a, next, b, j + (next - i), seen.push(item));
    }
}

proof fn lemma_entries_local(
    a: Seq<u8>,
    i: int,
    b: Seq<u8>,
    j: int,
    seen: Map<Seq<u8>, Tree>,
)
    requires
        entries_at(a, i, seen) matches Ok((t, end)) && agree(a, i, b, j, end - i),
    ensures
        entries_at(a, i, seen) matches Ok((t, end)) && entries_at(b, j, seen) == Ok::<
            (Tree, int),
            BencodeError<Seq<char>>,
        >((t, j + (end - i))),
    decreases a.len() - i, 1int,
{
    lemma_entries_progress(a, i, seen);
    let (t, end) = entries_at(a, i, seen)->Ok_0;
    assert(a[i + 0] == b[j + 0]);
    if a[i] != LOWER_E {
        let (key, start, value, next) = entry_at(a, i)->Ok_0;
        lemma_entry_progress(a, i);
        lemma_entries_progress(a, next, seen.insert(key, value));
        lemma_agree_part(a, i, b, j, end - i, 0, start - i);
        lemma_bytes_local(a, i, b, j);
        lemma_agree_part(a, i, b, j, end - i, start - i, next - i);
        lemma_value_local(a, start, b, j + (start - i));
        lemma_agree_part(a, i, b, j, end - i, next - i, end - i);
        assert(entry_at(b, j) == Ok::<(Seq<u8>, int, Tree, int), BencodeError<Seq<char>>>(
            (key, j + (start - i), value, j + (next - i)),
        ));
        lemma_entries_local(a, next, b, j + (next - i), seen.insert(key, value));
    }
}

proof fn lemma_info_key()
    ensures
        "info".spec_bytes().len() == 4,
{
    reveal_strlit("info");
    is_ascii_chars_encode_utf8("info"@);
}

proof fn lemma_top_entries_info(
    data: Seq<u8>,
    pos: int,
    seen: Map<Seq<u8>, Tree>,
    info: Option<(usize, usize)>,
)
    requires
        0 < pos,
        data.len() <= usize::MAX,
        info is Some <==> seen.contains_key("info".spec_bytes()),
        info matches Some((start, end)) ==> value_at(data, start as int) == Ok::<
            (Tree, int),
            BencodeError<Seq<char>>,
        >((seen["info".spec_bytes()], end as int)),
        info matches Some((start, end)) ==> 7 <= start < end <= pos,
    ensures
        top_entries_at(data, pos, seen, info) matches Ok((t, range)) ==> {
            &&& range is Some <==> t.get("info".spec_bytes()) is Some
            &&& range matches Some((start, end)) ==> 7 <= start < end < data.len() && value_at(
                data,
                start as int,
            ) == Ok::<(Tree, int), BencodeError<Seq<char>>>(
                (t.get("info".spec_bytes()).unwrap(), end as int),
            )
        },
    decreases data.len() - pos,
{
    if pos < data.len() && data[pos] != LOWER_E {
        lemma_entry_progress(data, pos);
        if let Ok((key, start, t, next)) = entry_at(data, pos) {
            if key == "info".spec_bytes() {
                lemma_info_key();
                lemma_find_from(data, pos, COLON);
            }
            let range = if key == "info".spec_bytes() {
                Some((start as usize, next as usize))
            } else {
                info
            };
            lemma_top_entries_info(data, next, seen.insert(key, t), range);
        }
    }
}

/// The range that goes with a torrent file is where its "info" value stands:
/// after its key, and before the end of the dictionary.
pub proof fn lemma_info_range(data: Seq<u8>)
    requires
        data.len() <= usize::MAX,
    ensures
        torrent_of(data) matches Ok((t, range)) ==> {
            &&& range is Some <==> t.get("info".spec_bytes()) is Some
            &&& range matches Some((start, end)) ==> 7 <= start < end < data.len() && value_at(
                data,
                start as int,
            ) == Ok::<(Tree, int), BencodeError<Seq<char>>>(
                (t.get("info".spec_bytes()).unwrap(), end as int),
            )
        },
{
    if data.len() > 0 && data[0] == LOWER_D {
        lemma_top_entries_info(data, 1, Map::empty(), None);
    }
}

/// A value that is cut off is never accepted.
pub proof fn lemma_cut_value(t: Tree, n: int)
    requires
        finite(t),
        lengths_fit(t),
        0 <= n < encode(t).len(),
    ensures
        value_at(encode(t).take(n), 0) is Err,
{
    let whole = encode(t) + seq![];
    assert(whole =~= encode(t));
    lemma_decode_encode(t, seq![]);
    let part = encode(t).take(n);
    if value_at(part, 0) is Ok {
        lemma_progress(part, 0);
        lemma_value_local(part, 0, whole, 0);
    }
}

/// The last of several entries with one key stands, whatever their values.
pub proof fn lemma_last_entry_stands(k: Seq<u8>, first: Tree, last: Tree)
    requires
        finite(first),
        lengths_fit(first),
        finite(last),
        lengths_fit(last),
        k.len() <= i64::MAX,
    ensures
        ({
            let data = seq![LOWER_D] + encode_bytes(k) + encode(first) + encode_bytes(k) + encode(
                last,
            ) + seq![LOWER_E];
            value_at(data, 0) == Ok::<(Tree, int), BencodeError<Seq<char>>>(
                (Tree::Dict(map![k => last]), data.len() as int),
            )
        }),
{
    let e = encode_bytes(k);
    let data = seq![LOWER_D] + e + encode(first) + e + encode(last) + seq![LOWER_E];
    let p1 = 1 + e.len() as int;
    let p2 = p1 + encode(first).len() as int;
    let p3 = p2 + e.len() as int;
    let p4 = p3 + encode(last).len() as int;
    assert(data.subrange(1, p1) =~= e);
    assert(data.subrange(p1, p2) =~= encode(first));
    assert(data.subrange(p2, p3) =~= e);
    assert(data.subrange(p3, p4) =~= encode(last));
    lemma_bytes_at(data, 1, k);
    lemma_value_at(data, p1, first);
    lemma_bytes_at(data, p2, k);
    lemma_value_at(data, p3, last);
    lemma_encode_first(Tree::Bytes(k));
    lemma_encode_first(first);
    lemma_encode_first(last);
    assert(encode(Tree::Bytes(k)) == e);
    assert(data[1] == e[0] && data[p2] == e[0] && data[p4] == LOWER_E);
    let one = Map::<Seq<u8>, Tree>::empty().insert(k, first);
    let two = one.insert(k, last);
    assert(two =~= map![k => last]);
    assert(entries_at(data, p4, two) == Ok::<(Tree, int), BencodeError<Seq<char>>>(
        (Tree::Dict(two), p4 + 1),
    ));
    assert(data.len() == p4 + 1);
    assert(entry_at(data, p2) == Ok::<(Seq<u8>, int, Tree, int), BencodeError<Seq<char>>>(
        (k, p3, last, p4),
    ));
    assert(entry_at(data, 1) == Ok::<(Seq<u8>, int, Tree, int), BencodeError<Seq<char>>>(
        (k, p1, first, p2),
    ));
    assert(data[p2] != LOWER_E && data[1] != LOWER_E);
    assert(entries_at(data, p2, one) == entries_at(data, p4, two));
    assert(entries_at(data, 1, Map::empty()) == entries_at(data, p2, one));
}

proof fn lemma_top_entries_same(
    data: Seq<u8>,
    pos: int,
    seen: Map<Seq<u8>, Tree>,
    info: Option<(usize, usize)>,
)
    requires
        0 <= pos,
    ensures
        top_entries_at(data, pos, seen, info) is Ok <==> entries_at(data, pos, seen) is Ok,
        top_entries_at(data, pos, seen, info) is Ok ==> top_entries_at(
            data,
            pos,
            seen,
            info,
        )->Ok_0.0 == entries_at(data, pos, seen)->Ok_0.0,
    decreases data.len() - pos,
{
    if pos < data.len() && data[pos] != LOWER_E {
        lemma_entry_progress(data, pos);
        if let Ok((key, start, t, next)) = entry_at(data, pos) {
            let range = if key == "info".spec_bytes() {
                Some((start as usize, next as usize))
            } else {
                info
            };
            lemma_top_entries_same(data, next, seen.insert(key, t), range);
        }
    }
}

/// A torrent file is read as the dictionary that it holds: whatever is read as
/// a dictionary is accepted, with the same entries, and nothing else is.
pub proof fn lemma_torrent_is_dict(data: Seq<u8>)
    ensures
        torrent_of(data) is Ok <==> (value_at(data, 0) is Ok && value_at(data, 0)->Ok_0.0 is Dict),
        torrent_of(data) is Ok ==> torrent_of(data)->Ok_0.0 == value_at(data, 0)->Ok_0.0,
{
    if data.len() > 0 && data[0] == LOWER_D {
        lemma_top_entries_same(data, 1, Map::empty(), None);
        lemma_entries_dict(data, 1, Map::empty());
    } else if data.len() > 0 && data[0] == LOWER_L {
        lemma_items_list(data, 1, seq![]);
    }
}

proof fn lemma_entries_dict(data: Seq<u8>, pos: int, seen: Map<Seq<u8>, Tree>)
    ensures
        entries_at(data, pos, seen) is Ok ==> entries_at(data, pos, seen)->Ok_0.0 is Dict,
    decreases data.len() - pos,
{
    if 0 <= pos < data.len() && data[pos] != LOWER_E {
        if let Ok((key, start, t, next)) = entry_at(data, pos) {
            if pos < next <= data.len() {
                lemma_entries_dict(data, next, seen.insert(key, t));
            }
        }
    }
}

proof fn lemma_items_list(data: Seq<u8>, pos: int, seen: Seq<Tree>)
    ensures
        items_at(data, pos, seen) is Ok ==> items_at(data, pos, seen)->Ok_0.0 is List,
    decreases data.len() - pos,
{
    if 0 <= pos < data.len() && data[pos] != LOWER_E {
        if let Ok((t, next)) = value_at(data, pos) {
            if pos < next <= data.len() {
                lemma_items_list(data, next, seen.push(t));
            }
        }
    }
}

/// A torrent file that was written is read back, and its "info" value is found
/// where it stands.
pub proof fn lemma_torrent_round_trip(m: Map<Seq<u8>, Tree>, rest: Seq<u8>)
    requires
        finite(Tree::Dict(m)),
        lengths_fit(Tree::Dict(m)),
        (encode(Tree::Dict(m)) + rest).len() <= usize::MAX,
    ensures
        ({
            let data = encode(Tree::Dict(m)) + rest;
            &&& torrent_of(data) is Ok
            &&& torrent_of(data)->Ok_0.0 == Tree::Dict(m)
            &&& torrent_of(data)->Ok_0.1 is Some <==> m.contains_key("info".spec_bytes())
            &&& torrent_of(data)->Ok_0.1 matches Some((start, end)) ==> start < end < data.len()
                && value_at(data, start as int) == Ok::<(Tree, int), BencodeError<Seq<char>>>(
                (m["info".spec_bytes()], end as int),
            )
        }),
{
    let data = encode(Tree::Dict(m)) + rest;
    lemma_decode_encode(Tree::Dict(m), rest);
    lemma_torrent_is_dict(data);
    lemma_info_range(data);
}

/// What a value holds can be read from it by its own kind and by no other: a
/// text is what its bytes encode, and only a dictionary has entries.
pub proof fn lemma_kinds(
    b: Seq<u8>,
    s: Seq<char>,
    n: i64,
    l: Seq<Tree>,
    m: Map<Seq<u8>, Tree>,
    k: Seq<u8>,
)
    ensures
        Tree::Bytes(b).as_bytes() == Some(b),
        Tree::Bytes(encode_utf8(s)).as_str() == Some(s),
        Tree::Int(n).as_int() == Some(n),
        Tree::List(l).as_list() == Some(l),
        m.contains_key(k) ==> Tree::Dict(m).get(k) == Some(m[k]),
        !m.contains_key(k) ==> Tree::Dict(m).get(k) is None,
        Tree::Bytes(b).as_int() is None && Tree::Bytes(b).as_list() is None,
        Tree::Int(n).as_bytes() is None && Tree::Int(n).as_str() is None && Tree::Int(
            n,
        ).as_list() is None,
        Tree::List(l).as_bytes() is None && Tree::List(l).as_str() is None && Tree::List(
            l,
        ).as_int() is None,
        Tree::Bytes(b).get(k) is None && Tree::Int(n).get(k) is None && Tree::List(l).get(
            k,
        ) is None,
        m.contains_key(k) && m[k] == Tree::Bytes(b) ==> Tree::Dict(m).get_bytes(k) == Some(b),
        m.contains_key(k) && m[k] == Tree::Bytes(encode_utf8(s)) ==> Tree::Dict(m).get_str(k)
            == Some(s),
        m.contains_key(k) && m[k] == Tree::Int(n) ==> Tree::Dict(m).get_int(k) == Some(n),
        m.contains_key(k) && m[k] == Tree::List(l) ==> Tree::Dict(m).get_list(k) == Some(l),
        !m.contains_key(k) ==> Tree::Dict(m).get_bytes(k) is None && Tree::Dict(m).get_str(
            k,
        ) is None && Tree::Dict(m).get_int(k) is None && Tree::Dict(m).get_list(k) is None,
{
    encode_utf8_valid_utf8(s);
    encode_utf8_decode_utf8(s);
}

/// An integer stands between `i` and `e`, a byte string behind its length and a
/// colon, a list between `l` and `e`, item after item, and a dictionary between
/// `d` and `e`.
pub proof fn lemma_encoding(b: Seq<u8>, n: i64, l: Seq<Tree>, t: Tree, m: Map<Seq<u8>, Tree>)
    ensures
        encode(Tree::Bytes(b)) == decimal(b.len()) + seq![0x3au8] + b,
        encode(Tree::Int(n)) == seq![0x69u8] + signed_decimal(n as int) + seq![0x65u8],
        encode(Tree::List(seq![])) == seq![0x6cu8, 0x65u8],
        encode(Tree::List(l.push(t))) == encode(Tree::List(l)).drop_last() + encode(t)
            + seq![0x65u8],
        encode(Tree::Dict(m))[0] == 0x64 && encode(Tree::Dict(m)).last() == 0x65,
{
    assert(encode(Tree::List(seq![])) =~= seq![0x6cu8, 0x65u8]);
    assert(l.push(t).drop_last() =~= l);
    assert(encode_items(l.push(t)) == encode_items(l) + encode(t));
    assert(encode(Tree::List(l.push(t))) =~= encode(Tree::List(l)).drop_last() + encode(t)
        + seq![0x65u8]);
}

/// Between `i` and `e` every text of an integer is accepted, also with a plus
/// sign or zeros in front, and nothing else.
pub proof fn lemma_integer_texts(text: Seq<u8>, rest: Seq<u8>)
    requires
        valid_utf8(text),
        forall|i: int| 0 <= i < text.len() ==> #[trigger] text[i] != 0x65,
    ensures
        ({
            let data = seq![0x69u8] + text + seq![0x65u8] + rest;
            match i64_of(text) {
                Some(n) => value_at(data, 0) == Ok::<(Tree, int), BencodeError<Seq<char>>>(
                    (Tree::Int(n), text.len() as int + 2),
                ),
                None => value_at(data, 0) matches Err(BencodeError::InvalidInteger { .. }),
            }
        }),
{
    let data = seq![0x69u8] + text + seq![0x65u8] + rest;
    let end = 1 + text.len() as int;
    assert forall|j: int| 1 <= j < end implies data[j] != 0x65 by {
        assert(data[j] == text[j - 1]);
    }
    assert(data[end] == 0x65 && data[0] == 0x69);
    lemma_find_from_is(data, 1, LOWER_E, end);
    assert(data.subrange(1, end) =~= text);
}

/// A byte string that is longer than the data, or whose length is negative, is
/// refused, and so is a byte that starts no value.
pub proof fn lemma_bad_values(n: nat, b: Seq<u8>, first: u8, rest: Seq<u8>)
    ensures
        b.len() < n <= i64::MAX ==> (value_at(decimal(n) + seq![0x3au8] + b, 0) matches Err(
            BencodeError::LengthExceedsInput { len, .. },
        ) && len == n),
        0 < n <= i64::MAX ==> bytes_at(seq![0x2du8] + decimal(n) + seq![0x3au8] + b, 0) == Err::<
            (Seq<u8>, int),
            BencodeError<Seq<char>>,
        >(BencodeError::NegativeLength),
        first != 0x69 && first != 0x6c && first != 0x64 && !is_digit(first) ==> value_at(
            seq![first] + rest,
            0,
        ) == Err::<(Tree, int), BencodeError<Seq<char>>>(
            BencodeError::UnexpectedByte { byte: first, offset: 0 },
        ),
        value_at(seq![], 0) == Err::<(Tree, int), BencodeError<Seq<char>>>(
            BencodeError::UnexpectedEnd,
        ),
{
    lemma_decimal(n);
    let digits = decimal(n);
    if b.len() < n <= i64::MAX {
        let data = digits + seq![0x3au8] + b;
        let end = digits.len() as int;
        assert forall|j: int| 0 <= j < end implies data[j] != 0x3a by {
            assert(data[j] == digits[j] && is_digit(digits[j]));
        }
        assert(data[end] == 0x3a);
        lemma_find_from_is(data, 0, COLON, end);
        assert(data.subrange(0, end) =~= digits);
        assert(is_digit(digits[0]) && data[0] == digits[0]);
        lemma_ascii_utf8(digits);
        lemma_i64_of(digits, 0);
    }
    if 0 < n <= i64::MAX {
        let text = seq![0x2du8] + digits;
        let data = text + seq![0x3au8] + b;
        let end = text.len() as int;
        assert forall|j: int| 0 <= j < end implies data[j] != 0x3a && text[j] < 0x80 by {
            assert(data[j] == text[j]);
            if j > 0 {
                assert(text[j] == digits[j - 1] && is_digit(digits[j - 1]));
            }
        }
        assert(data[end] == 0x3a);
        lemma_find_from_is(data, 0, COLON, end);
        assert(data.subrange(0, end) =~= text);
        lemma_ascii_utf8(text);
        lemma_i64_of(digits, 0);
    }
    assert((seq![first] + rest)[0] == first);
}

} // verus!
