//! Change records, the counters, and the bytes that both are stored as.

use vstd::prelude::*;

verus! {

/// The `n` low-order bytes of `x`, least significant byte first.
pub open spec fn le_bytes(x: nat, n: nat) -> Seq<u8>
    decreases n,
{
    if n == 0 {
        Seq::empty()
    } else {
        seq![(x % 256) as u8] + le_bytes(x / 256, (n - 1) as nat)
    }
}

/// The number whose bytes are `s`, least significant byte first.
pub open spec fn le_value(s: Seq<u8>) -> nat
    decreases s.len(),
{
    if s.len() == 0 {
        0
    } else {
        s[0] as nat + 256 * le_value(s.drop_first())
    }
}

/// The number of different values of `n` bytes.
spec fn byte_values(n: nat) -> nat
    decreases n,
{
    if n == 0 {
        1
    } else {
        256 * byte_values((n - 1) as nat)
    }
}

proof fn lemma_byte_values_of_a_word()
    ensures
        byte_values(8) == u64::MAX + 1,
{
    reveal_with_fuel(byte_values, 9);
}

proof fn lemma_le_value_bound(s: Seq<u8>)
    ensures
        le_value(s) < byte_values(s.len()),
    decreases s.len(),
{
    if s.len() > 0 {
        lemma_le_value_bound(s.drop_first());
    }
}

proof fn lemma_byte_values_monotonic(m: nat, n: nat)
    requires
        m <= n,
    ensures
        byte_values(m) <= byte_values(n),
    decreases n,
{
    if m < n {
        lemma_byte_values_monotonic(m, (n - 1) as nat);
    }
}

/// At most eight bytes hold a number that fits in a word.
proof fn lemma_le_value_fits(s: Seq<u8>)
    requires
        s.len() <= 8,
    ensures
        le_value(s) <= u64::MAX,
{
    lemma_le_value_bound(s);
    lemma_byte_values_monotonic(s.len(), 8);
    lemma_byte_values_of_a_word();
}

/// Reading `n` bytes of a number gives the number back, where it fits in them.
proof fn lemma_le_value_of_bytes(x: nat, n: nat)
    requires
        x < byte_values(n),
    ensures
        le_bytes(x, n).len() == n,
        le_value(le_bytes(x, n)) == x,
    decreases n,
{
    if n > 0 {
        let rest = le_bytes(x / 256, (n - 1) as nat);
        lemma_le_value_of_bytes(x / 256, (n - 1) as nat);
        assert(le_bytes(x, n).drop_first() =~= rest);
    }
}

/// The eight bytes of a word hold that word.
pub(crate) proof fn lemma_word_bytes(x: u64)
    ensures
        le_bytes(x as nat, 8).len() == 8,
        le_value(le_bytes(x as nat, 8)) == x,
{
    lemma_byte_values_of_a_word();
    lemma_le_value_of_bytes(x as nat, 8);
}

/// The bytes of the number that a string of bytes holds are that string.
proof fn lemma_le_bytes_of_value(s: Seq<u8>)
    ensures
        le_bytes(le_value(s), s.len()) == s,
    decreases s.len(),
{
    if s.len() > 0 {
        let rest = s.drop_first();
        lemma_le_bytes_of_value(rest);
        let x = le_value(s);
        assert(x % 256 == s[0] && x / 256 == le_value(rest));
        assert(s =~= seq![s[0]] + rest);
    } else {
        assert(s =~= Seq::empty());
    }
}

/// Appends the eight bytes of `x`, least significant byte first.
fn push_word(buf: &mut Vec<u8>, x: u64)
    ensures
        final(buf)@ == old(buf)@ + le_bytes(x as nat, 8),
{
    let mut rest: u64 = x;
    let mut n: u64 = 8;
    while n > 0
        invariant
            n <= 8,
            buf@ + le_bytes(rest as nat, n as nat) == old(buf)@ + le_bytes(x as nat, 8),
        decreases n,
    {
        let ghost before = buf@;
        let byte: u8 = (rest % 256) as u8;
        buf.push(byte);
        proof {
            let tail = le_bytes((rest / 256) as nat, (n - 1) as nat);
            assert(le_bytes(rest as nat, n as nat) == seq![byte] + tail);
            assert(before + (seq![byte] + tail) =~= before.push(byte) + tail);
        }
        rest = rest / 256;
        n = n - 1;
    }
    proof {
        assert(buf@ + le_bytes(rest as nat, 0) =~= buf@);
    }
}

/// The word at `at`, least significant byte first.
fn word_at(bytes: &Vec<u8>, at: usize) -> (x: u64)
    requires
        at + 8 <= bytes.len(),
    ensures
        x == le_value(bytes@.subrange(at as int, at + 8)),
{
    let mut x: u64 = 0;
    let mut n: usize = 8;
    while n > 0
        invariant
            n <= 8,
            at + 8 <= bytes.len(),
            x == le_value(bytes@.subrange(at + n, at + 8)),
        decreases n,
    {
        let byte: u8 = bytes[at + (n - 1)];
        proof {
            let part = bytes@.subrange(at + n - 1, at + 8);
            assert(part.drop_first() =~= bytes@.subrange(at + n, at + 8));
            lemma_le_value_fits(part);
            assert(le_value(part) == byte as nat + 256 * x);
        }
        x = byte as u64 + 256 * x;
        n = n - 1;
    }
    x
}

/// What a change did to its key.
#[derive(Debug, Clone, Copy, PartialEq, Eq, Structural)]
pub enum ChangeKind {
    Upsert,
    Delete,
}

impl ChangeKind {
    /// The byte that stands for a kind of change in a stored record.
    pub open spec fn tag(self) -> u8 {
        match self {
            ChangeKind::Upsert => 0,
            ChangeKind::Delete => 1,
        }
    }

    fn to_tag(self) -> (tag: u8)
        ensures
            tag == self.tag(),
    {
        match self {
            ChangeKind::Upsert => 0,
            ChangeKind::Delete => 1,
        }
    }
}

/// A change record stored in the append-only changelog.
#[derive(Debug, Clone, PartialEq, Eq)]
pub struct ChangeEntry<K> {
    pub kind: ChangeKind,
    pub entry_id: u64,
    pub key: K,
}

impl<K: View> View for ChangeEntry<K> {
    type V = ChangeEntry<K::V>;

    open spec fn view(&self) -> ChangeEntry<K::V> {
        ChangeEntry { kind: self.kind, entry_id: self.entry_id, key: self.key@ }
    }
}

impl<K> ChangeEntry<K> {
    /// Returns true if the change set a value for its key.
    pub fn is_upsert(&self) -> (r: bool)
        ensures
            r == (self.kind == ChangeKind::Upsert),
    {
        self.kind == ChangeKind::Upsert
    }

    /// Returns true if the change removed its key.
    pub fn is_delete(&self) -> (r: bool)
        ensures
            r == (self.kind == ChangeKind::Delete),
    {
        self.kind == ChangeKind::Delete
    }
}

impl ChangeEntry<Seq<u8>> {
    /// The stored form of a record: its tag, the eight bytes of its entry ID,
    /// least significant first, and the key.
    pub open spec fn encoded(self) -> Seq<u8> {
        seq![self.kind.tag()] + le_bytes(self.entry_id as nat, 8) + self.key
    }

    /// Whether `bytes` is the stored form of some record.
    pub open spec fn readable(bytes: Seq<u8>) -> bool {
        bytes.len() >= 9 && (bytes[0] == ChangeKind::Upsert.tag() || bytes[0]
            == ChangeKind::Delete.tag())
    }

    /// The record whose stored form is `bytes`.
    pub open spec fn decoded(bytes: Seq<u8>) -> Self {
        ChangeEntry {
            kind: if bytes[0] == ChangeKind::Upsert.tag() {
                ChangeKind::Upsert
            } else {
                ChangeKind::Delete
            },
            entry_id: le_value(bytes.subrange(1, 9)) as u64,
            key: bytes.skip(9),
        }
    }
}

impl ChangeEntry<Vec<u8>> {
    /// The stored form of the record.
    pub fn to_bytes(&self) -> (bytes: Vec<u8>)
        ensures
            bytes@ == self@.encoded(),
            bytes@.len() == 9 + self.key@.len(),
            bytes@[0] == 0 <==> self.kind == ChangeKind::Upsert,
            bytes@[0] == 1 <==> self.kind == ChangeKind::Delete,
            bytes@.skip(9) == self.key@,
    {
        let mut buf: Vec<u8> = Vec::new();
        buf.push(self.kind.to_tag());
        push_word(&mut buf, self.entry_id);
        buf.extend_from_slice(self.key.as_slice());
        proof {
            assert(buf@ =~= self@.encoded());
            lemma_word_bytes(self.entry_id);
            assert(buf@.skip(9) =~= self.key@);
        }
        buf
    }

    /// The stored form of the record, which is used up.
    pub fn into_bytes(self) -> (bytes: Vec<u8>)
        ensures
            bytes@ == self@.encoded(),
    {
        self.to_bytes()
    }

    /// Whether `bytes` is the stored form of some record.
    pub fn is_readable(bytes: &Vec<u8>) -> (readable: bool)
        ensures
            readable == ChangeEntry::<Seq<u8>>::readable(bytes@),
            readable <==> bytes@.len() >= 9 && (bytes@[0] == 0 || bytes@[0] == 1),
    {
        bytes.len() >= 9 && (bytes[0] == 0 || bytes[0] == 1)
    }

    /// The record whose stored form is `bytes`.
    pub fn from_bytes(bytes: Vec<u8>) -> (entry: Self)
        requires
            ChangeEntry::<Seq<u8>>::readable(bytes@),
        ensures
            entry@ == ChangeEntry::<Seq<u8>>::decoded(bytes@),
            entry@.encoded() == bytes@,
            bytes@[0] == 0 ==> entry.kind == ChangeKind::Upsert,
            bytes@[0] == 1 ==> entry.kind == ChangeKind::Delete,
            entry.key@ == bytes@.skip(9),
    {
        let mut head: Vec<u8> = bytes;
        let kind = if head[0] == 0 {
            ChangeKind::Upsert
        } else {
            ChangeKind::Delete
        };
        let entry_id: u64 = word_at(&head, 1);
        let key: Vec<u8> = head.split_off(9);
        proof {
            assert(key@ =~= bytes@.skip(9));
            decoding_then_encoding_gives_the_bytes_back(bytes@);
        }
        ChangeEntry { kind, entry_id, key }
    }
}

/// Decoding the stored form of a record gives the record back.
pub proof fn encoding_then_decoding_gives_the_entry_back(e: ChangeEntry<Seq<u8>>)
    ensures
        ChangeEntry::readable(e.encoded()),
        ChangeEntry::decoded(e.encoded()) == e,
        e.encoded().len() == 9 + e.key.len(),
{
    lemma_word_bytes(e.entry_id);
    let bytes = e.encoded();
    assert(bytes.subrange(1, 9) =~= le_bytes(e.entry_id as nat, 8));
    assert(bytes.skip(9) =~= e.key);
}

/// Two records with the same stored form are the same.
pub proof fn a_stored_form_belongs_to_one_entry(a: ChangeEntry<Seq<u8>>, b: ChangeEntry<Seq<u8>>)
    requires
        a.encoded() == b.encoded(),
    ensures
        a == b,
{
    encoding_then_decoding_gives_the_entry_back(a);
    encoding_then_decoding_gives_the_entry_back(b);
}

/// The record with the bytes of its key in place of the key, by way of `to_bytes`.
pub open spec fn with_key_bytes<K>(
    e: ChangeEntry<K>,
    to_bytes: spec_fn(K) -> Seq<u8>,
) -> ChangeEntry<Seq<u8>> {
    ChangeEntry { kind: e.kind, entry_id: e.entry_id, key: to_bytes(e.key) }
}

/// The record with a key in place of the bytes of the key, by way of `from_bytes`.
pub open spec fn with_key<K>(
    e: ChangeEntry<Seq<u8>>,
    from_bytes: spec_fn(Seq<u8>) -> K,
) -> ChangeEntry<K> {
    ChangeEntry { kind: e.kind, entry_id: e.entry_id, key: from_bytes(e.key) }
}

/// Decoding the stored form of a record with a key of any type gives the record back, where
/// the bytes of a key give the key back.
pub proof fn encoding_then_decoding_gives_any_entry_back<K>(
    e: ChangeEntry<K>,
    to_bytes: spec_fn(K) -> Seq<u8>,
    from_bytes: spec_fn(Seq<u8>) -> K,
)
    requires
        from_bytes(to_bytes(e.key)) == e.key,
    ensures
        ({
            let stored = with_key_bytes(e, to_bytes).encoded();
            &&& ChangeEntry::<Seq<u8>>::readable(stored)
            &&& with_key(ChangeEntry::<Seq<u8>>::decoded(stored), from_bytes) == e
        }),
{
    encoding_then_decoding_gives_the_entry_back(with_key_bytes(e, to_bytes));
}

/// Encoding the record that readable bytes hold gives those bytes back.
pub proof fn decoding_then_encoding_gives_the_bytes_back(bytes: Seq<u8>)
    requires
        ChangeEntry::<Seq<u8>>::readable(bytes),
    ensures
        ChangeEntry::<Seq<u8>>::decoded(bytes).encoded() == bytes,
{
    let word = bytes.subrange(1, 9);
    lemma_le_value_fits(word);
    lemma_le_bytes_of_value(word);
    assert(ChangeEntry::<Seq<u8>>::decoded(bytes).encoded() =~= bytes);
}

/// Counters persisted beside the map.
#[derive(Debug, Clone, Copy, PartialEq, Eq, Structural)]
pub struct Counters {
    pub next_entry_id: u64,
    pub epoch_start: u64,
}

impl Default for Counters {
    fn default() -> (c: Self)
        ensures
            c == (Counters { next_entry_id: 0, epoch_start: 0 }),
    {
        Counters { next_entry_id: 0, epoch_start: 0 }
    }
}

impl Counters {
    /// The stored form of the counters: eight bytes each, least significant first.
    pub open spec fn encoded(self) -> Seq<u8> {
        le_bytes(self.next_entry_id as nat, 8) + le_bytes(self.epoch_start as nat, 8)
    }

    /// The counters that the first sixteen bytes of `bytes` hold.
    pub open spec fn decoded(bytes: Seq<u8>) -> Self {
        Counters {
            next_entry_id: le_value(bytes.subrange(0, 8)) as u64,
            epoch_start: le_value(bytes.subrange(8, 16)) as u64,
        }
    }

    /// The stored form of the counters.
    pub fn to_bytes(&self) -> (bytes: Vec<u8>)
        ensures
            bytes@ == self.encoded(),
            bytes@.len() == 16,
    {
        let mut buf: Vec<u8> = Vec::new();
        push_word(&mut buf, self.next_entry_id);
        push_word(&mut buf, self.epoch_start);
        proof {
            lemma_word_bytes(self.next_entry_id);
            lemma_word_bytes(self.epoch_start);
            assert(buf@ =~= self.encoded());
        }
        buf
    }

    /// The stored form of the counters, which are used up.
    pub fn into_bytes(self) -> (bytes: Vec<u8>)
        ensures
            bytes@ == self.encoded(),
            bytes@.len() == 16,
    {
        self.to_bytes()
    }

    /// The counters that the first sixteen bytes of `bytes` hold.
    pub fn from_bytes(bytes: Vec<u8>) -> (c: Self)
        requires
            bytes@.len() >= 16,
        ensures
            c == Self::decoded(bytes@),
    {
        Counters { next_entry_id: word_at(&bytes, 0), epoch_start: word_at(&bytes, 8) }
    }
}

/// Decoding the stored form of the counters gives the counters back.
pub proof fn encoding_then_decoding_gives_the_counters_back(c: Counters)
    ensures
        c.encoded().len() == 16,
        Counters::decoded(c.encoded()) == c,
{
    lemma_word_bytes(c.next_entry_id);
    lemma_word_bytes(c.epoch_start);
    assert(c.encoded().subrange(0, 8) =~= le_bytes(c.next_entry_id as nat, 8));
    assert(c.encoded().subrange(8, 16) =~= le_bytes(c.epoch_start as nat, 8));
}

/// Encoding the counters that stored bytes hold gives the first sixteen of them back.
pub proof fn decoding_then_encoding_gives_the_stored_counters_back(bytes: Seq<u8>)
    requires
        bytes.len() >= 16,
    ensures
        Counters::decoded(bytes).encoded() == bytes.take(16),
{
    let (a, b) = (bytes.subrange(0, 8), bytes.subrange(8, 16));
    lemma_le_value_fits(a);
    lemma_le_value_fits(b);
    lemma_le_bytes_of_value(a);
    lemma_le_bytes_of_value(b);
    assert(a + b =~= bytes.take(16));
}

/// The number that eight bytes hold, each byte worth 256 times the one before.
proof fn lemma_word(s: Seq<u8>)
    requires
        s.len() == 8,
    ensures
        le_value(s) == s[0] + 0x100 * s[1] + 0x1_0000 * s[2] + 0x100_0000 * s[3] + 0x1_0000_0000
            * s[4] + 0x100_0000_0000 * s[5] + 0x1_0000_0000_0000 * s[6] + 0x100_0000_0000_0000
            * s[7],
{
    let s1 = s.drop_first();
    let s2 = s1.drop_first();
    let s3 = s2.drop_first();
    let s4 = s3.drop_first();
    let s5 = s4.drop_first();
    let s6 = s5.drop_first();
    let s7 = s6.drop_first();
    let end = s7.drop_first();
    assert(le_value(end) == 0);
    assert(s7[0] == s[7]);
    assert(le_value(s7) == s7[0] as nat + 256 * le_value(end));
    assert(le_value(s6) == s[6] + 256 * le_value(s7));
    assert(le_value(s5) == s[5] + 256 * le_value(s6));
    assert(le_value(s4) == s[4] + 256 * le_value(s5));
    assert(le_value(s3) == s[3] + 256 * le_value(s4));
    assert(le_value(s2) == s[2] + 256 * le_value(s3));
    assert(le_value(s1) == s[1] + 256 * le_value(s2));
}

/// The stored form of a record, byte by byte: zero for a value that was set and one for a
/// removal, eight bytes that hold the entry ID, each worth 256 times the one before, and the
/// bytes of the key. Nothing else can be read as a record.
pub proof fn the_stored_form_of_a_record(e: ChangeEntry<Seq<u8>>, bytes: Seq<u8>)
    ensures
        ({
            let b = e.encoded();
            &&& b.len() == 9 + e.key.len()
            &&& b[0] == 0 <==> e.kind == ChangeKind::Upsert
            &&& b[0] == 1 <==> e.kind == ChangeKind::Delete
            &&& e.entry_id == b[1] + 0x100 * b[2] + 0x1_0000 * b[3] + 0x100_0000 * b[4]
                + 0x1_0000_0000 * b[5] + 0x100_0000_0000 * b[6] + 0x1_0000_0000_0000 * b[7]
                + 0x100_0000_0000_0000 * b[8]
            &&& forall|i: int| 0 <= i < e.key.len() ==> b[9 + i] == #[trigger] e.key[i]
        }),
        ChangeEntry::<Seq<u8>>::readable(bytes) <==> bytes.len() >= 9 && (bytes[0] == 0 || bytes[0]
            == 1),
        ChangeEntry::<Seq<u8>>::readable(bytes) ==> ChangeEntry::<Seq<u8>>::decoded(
            bytes,
        ).encoded() == bytes,
{
    lemma_word_bytes(e.entry_id);
    let word = le_bytes(e.entry_id as nat, 8);
    let b = e.encoded();
    lemma_word(word);
    assert forall|i: int| 0 <= i < 8 implies b[1 + i] == #[trigger] word[i] by {}
    if ChangeEntry::<Seq<u8>>::readable(bytes) {
        decoding_then_encoding_gives_the_bytes_back(bytes);
    }
}

/// The stored form of the counters, byte by byte: eight bytes that hold the next entry ID and
/// eight that hold the start of the epoch, each byte worth 256 times the one before.
pub proof fn the_stored_form_of_the_counters(c: Counters)
    ensures
        ({
            let b = c.encoded();
            &&& b.len() == 16
            &&& c.next_entry_id == b[0] + 0x100 * b[1] + 0x1_0000 * b[2] + 0x100_0000 * b[3]
                + 0x1_0000_0000 * b[4] + 0x100_0000_0000 * b[5] + 0x1_0000_0000_0000 * b[6]
                + 0x100_0000_0000_0000 * b[7]
            &&& c.epoch_start == b[8] + 0x100 * b[9] + 0x1_0000 * b[10] + 0x100_0000 * b[11]
                + 0x1_0000_0000 * b[12] + 0x100_0000_0000 * b[13] + 0x1_0000_0000_0000 * b[14]
                + 0x100_0000_0000_0000 * b[15]
        }),
{
    lemma_word_bytes(c.next_entry_id);
    lemma_word_bytes(c.epoch_start);
    let (next, start) = (le_bytes(c.next_entry_id as nat, 8), le_bytes(c.epoch_start as nat, 8));
    let b = c.encoded();
    lemma_word(next);
    lemma_word(start);
    assert forall|i: int| 0 <= i < 8 implies b[i] == #[trigger] next[i] by {}
    assert forall|i: int| 0 <= i < 8 implies b[8 + i] == #[trigger] start[i] by {}
}

} // verus!
