//! A single-pass tokenizer for the upstream XML wire format.
//!
//! The grammar is stated as spec functions over byte sequences; the
//! executable scanner is proved to return exactly what they describe. The
//! scanner never materializes a document tree: it yields a flat sequence of
//! events (open tag, empty tag, close tag, text), which the entity parser
//! consumes in one pass.

use vstd::prelude::*;

verus! {

/// One scanned event of the payload.
pub enum XmlEvent {
    /// `<name attr="v" ...>`
    Start { name: Vec<u8>, attrs: Vec<(Vec<u8>, Vec<u8>)> },
    /// `<name attr="v" .../>`
    Empty { name: Vec<u8>, attrs: Vec<(Vec<u8>, Vec<u8>)> },
    /// `</name>`
    End { name: Vec<u8> },
    /// Character data between tags, or the body of a CDATA section.
    Text { content: Vec<u8> },
    /// An XML declaration, comment or document-type clause: carried so the
    /// entity parser can step over it, never inspected.
    Skip,
}

/// Ghost twin of `XmlEvent`.
pub enum GEvent {
    Start { name: Seq<u8>, attrs: Seq<(Seq<u8>, Seq<u8>)> },
    Empty { name: Seq<u8>, attrs: Seq<(Seq<u8>, Seq<u8>)> },
    End { name: Seq<u8> },
    Text { content: Seq<u8> },
    Skip,
}

/// The view of an attribute list: each name and value as a sequence.
pub open spec fn attrs_view(a: Seq<(Vec<u8>, Vec<u8>)>) -> Seq<(Seq<u8>, Seq<u8>)> {
    a.map_values(|p: (Vec<u8>, Vec<u8>)| (p.0@, p.1@))
}

impl View for XmlEvent {
    type V = GEvent;

    open spec fn view(&self) -> GEvent {
        match self {
            XmlEvent::Start { name, attrs } => GEvent::Start {
                name: name@,
                attrs: attrs_view(attrs@),
            },
            XmlEvent::Empty { name, attrs } => GEvent::Empty {
                name: name@,
                attrs: attrs_view(attrs@),
            },
            XmlEvent::End { name } => GEvent::End { name: name@ },
            XmlEvent::Text { content } => GEvent::Text { content: content@ },
            XmlEvent::Skip => GEvent::Skip,
        }
    }
}

/// The view of an event list.
pub open spec fn events_view(evs: Seq<XmlEvent>) -> Seq<GEvent> {
    evs.map_values(|e: XmlEvent| e@)
}

/// XML whitespace.
pub open spec fn is_ws(b: u8) -> bool {
    b == 32 || b == 9 || b == 10 || b == 13
}

/// Index of the first occurrence of `b` at or after `from`; the length of
/// `s` when there is none.
pub open spec fn find_byte(s: Seq<u8>, from: int, b: u8) -> int
    decreases s.len() - from,
{
    if !(0 <= from < s.len()) {
        s.len() as int
    } else if s[from] == b {
        from
    } else {
        find_byte(s, from + 1, b)
    }
}

pub proof fn lemma_find_byte(s: Seq<u8>, from: int, b: u8)
    requires
        0 <= from <= s.len(),
    ensures
        from <= find_byte(s, from, b) <= s.len(),
        find_byte(s, from, b) < s.len() ==> s[find_byte(s, from, b)] == b,
        forall|j: int| from <= j < find_byte(s, from, b) ==> s[j] != b,
    decreases s.len() - from,
{
    if from < s.len() && s[from] != b {
        lemma_find_byte(s, from + 1, b);
    }
}

/// Index of the first whitespace byte at or after `from`; the length of `s`
/// when there is none.
pub open spec fn find_ws(s: Seq<u8>, from: int) -> int
    decreases s.len() - from,
{
    if !(0 <= from < s.len()) {
        s.len() as int
    } else if is_ws(s[from]) {
        from
    } else {
        find_ws(s, from + 1)
    }
}

pub proof fn lemma_find_ws(s: Seq<u8>, from: int)
    requires
        0 <= from <= s.len(),
    ensures
        from <= find_ws(s, from) <= s.len(),
    decreases s.len() - from,
{
    if from < s.len() && !is_ws(s[from]) {
        lemma_find_ws(s, from + 1);
    }
}

/// Index of the first non-whitespace byte at or after `from`; the length of
/// `s` when there is none.
pub open spec fn find_non_ws(s: Seq<u8>, from: int) -> int
    decreases s.len() - from,
{
    if !(0 <= from < s.len()) {
        s.len() as int
    } else if !is_ws(s[from]) {
        from
    } else {
        find_non_ws(s, from + 1)
    }
}

pub proof fn lemma_find_non_ws(s: Seq<u8>, from: int)
    requires
        0 <= from <= s.len(),
    ensures
        from <= find_non_ws(s, from) <= s.len(),
    decreases s.len() - from,
{
    if from < s.len() && is_ws(s[from]) {
        lemma_find_non_ws(s, from + 1);
    }
}

/// Index of the first occurrence of the two-byte pattern `b0 b1` at or
/// after `from`; the length of `s` when there is none.
pub open spec fn find_pat2(s: Seq<u8>, from: int, b0: u8, b1: u8) -> int
    decreases s.len() - from,
{
    if !(0 <= from) || from + 2 > s.len() {
        s.len() as int
    } else if s[from] == b0 && s[from + 1] == b1 {
        from
    } else {
        find_pat2(s, from + 1, b0, b1)
    }
}

pub proof fn lemma_find_pat2(s: Seq<u8>, from: int, b0: u8, b1: u8)
    requires
        0 <= from <= s.len(),
    ensures
        from <= find_pat2(s, from, b0, b1) <= s.len(),
        find_pat2(s, from, b0, b1) < s.len() ==> find_pat2(s, from, b0, b1) + 2 <= s.len()
            && s[find_pat2(s, from, b0, b1)] == b0
            && s[find_pat2(s, from, b0, b1) + 1] == b1,
    decreases s.len() - from,
{
    if from + 2 <= s.len() && !(s[from] == b0 && s[from + 1] == b1) {
        lemma_find_pat2(s, from + 1, b0, b1);
    }
}

/// Index of the first occurrence of the three-byte pattern `b0 b1 b2` at or
/// after `from`; the length of `s` when there is none.
pub open spec fn find_pat3(s: Seq<u8>, from: int, b0: u8, b1: u8, b2: u8) -> int
    decreases s.len() - from,
{
    if !(0 <= from) || from + 3 > s.len() {
        s.len() as int
    } else if s[from] == b0 && s[from + 1] == b1 && s[from + 2] == b2 {
        from
    } else {
        find_pat3(s, from + 1, b0, b1, b2)
    }
}

pub proof fn lemma_find_pat3(s: Seq<u8>, from: int, b0: u8, b1: u8, b2: u8)
    requires
        0 <= from <= s.len(),
    ensures
        from <= find_pat3(s, from, b0, b1, b2) <= s.len(),
        find_pat3(s, from, b0, b1, b2) < s.len() ==> find_pat3(s, from, b0, b1, b2) + 3 <= s.len()
            && s[find_pat3(s, from, b0, b1, b2)] == b0
            && s[find_pat3(s, from, b0, b1, b2) + 1] == b1
            && s[find_pat3(s, from, b0, b1, b2) + 2] == b2,
    decreases s.len() - from,
{
    if from + 3 <= s.len() && !(s[from] == b0 && s[from + 1] == b1 && s[from + 2] == b2) {
        lemma_find_pat3(s, from + 1, b0, b1, b2);
    }
}

/// Executable counterpart of `find_byte`.
pub fn find_byte_at(s: &Vec<u8>, from: usize, b: u8) -> (r: usize)
    requires
        from <= s@.len(),
    ensures
        r == find_byte(s@, from as int, b),
        from <= r <= s@.len(),
{
    proof {
        lemma_find_byte(s@, from as int, b);
    }
    let mut i: usize = from;
    loop
        invariant
            from <= i <= s@.len(),
            find_byte(s@, from as int, b) == find_byte(s@, i as int, b),
        decreases s@.len() - i,
    {
        if i == s.len() {
            return i;
        }
        if s[i] == b {
            return i;
        }
        i = i + 1;
    }
}

/// Executable counterpart of `find_ws`.
pub fn find_ws_at(s: &Vec<u8>, from: usize) -> (r: usize)
    requires
        from <= s@.len(),
    ensures
        r == find_ws(s@, from as int),
        from <= r <= s@.len(),
{
    proof {
        lemma_find_ws(s@, from as int);
    }
    let mut i: usize = from;
    loop
        invariant
            from <= i <= s@.len(),
            find_ws(s@, from as int) == find_ws(s@, i as int),
        decreases s@.len() - i,
    {
        if i == s.len() {
            return i;
        }
        let c = s[i];
        if c == 32 || c == 9 || c == 10 || c == 13 {
            return i;
        }
        i = i + 1;
    }
}

/// Executable counterpart of `find_non_ws`.
pub fn find_non_ws_at(s: &Vec<u8>, from: usize) -> (r: usize)
    requires
        from <= s@.len(),
    ensures
        r == find_non_ws(s@, from as int),
        from <= r <= s@.len(),
{
    proof {
        lemma_find_non_ws(s@, from as int);
    }
    let mut i: usize = from;
    loop
        invariant
            from <= i <= s@.len(),
            find_non_ws(s@, from as int) == find_non_ws(s@, i as int),
        decreases s@.len() - i,
    {
        if i == s.len() {
            return i;
        }
        let c = s[i];
        if !(c == 32 || c == 9 || c == 10 || c == 13) {
            return i;
        }
        i = i + 1;
    }
}

/// Executable counterpart of `find_pat2`.
pub fn find_pat2_at(s: &Vec<u8>, from: usize, b0: u8, b1: u8) -> (r: usize)
    requires
        from <= s@.len(),
    ensures
        r == find_pat2(s@, from as int, b0, b1),
        from <= r <= s@.len(),
{
    proof {
        lemma_find_pat2(s@, from as int, b0, b1);
    }
    let mut i: usize = from;
    loop
        invariant
            from <= i <= s@.len(),
            find_pat2(s@, from as int, b0, b1) == find_pat2(s@, i as int, b0, b1),
        decreases s@.len() - i,
    {
        if s.len() - i < 2 {
            proof {
                lemma_find_pat2(s@, i as int, b0, b1);
            }
            return s.len();
        }
        if s[i] == b0 && s[i + 1] == b1 {
            return i;
        }
        i = i + 1;
    }
}

/// Executable counterpart of `find_pat3`.
pub fn find_pat3_at(s: &Vec<u8>, from: usize, b0: u8, b1: u8, b2: u8) -> (r: usize)
    requires
        from <= s@.len(),
    ensures
        r == find_pat3(s@, from as int, b0, b1, b2),
        from <= r <= s@.len(),
{
    proof {
        lemma_find_pat3(s@, from as int, b0, b1, b2);
    }
    let mut i: usize = from;
    loop
        invariant
            from <= i <= s@.len(),
            find_pat3(s@, from as int, b0, b1, b2) == find_pat3(s@, i as int, b0, b1, b2),
        decreases s@.len() - i,
    {
        if s.len() - i < 3 {
            proof {
                lemma_find_pat3(s@, i as int, b0, b1, b2);
            }
            return s.len();
        }
        if s[i] == b0 && s[i + 1] == b1 && s[i + 2] == b2 {
            return i;
        }
        i = i + 1;
    }
}

/// Copies `s[a..b]` into a fresh vector.
pub fn subvec(s: &Vec<u8>, a: usize, b: usize) -> (r: Vec<u8>)
    requires
        a <= b <= s@.len(),
    ensures
        r@ == s@.subrange(a as int, b as int),
{
    let mut r: Vec<u8> = Vec::new();
    let mut i: usize = a;
    while i < b
        invariant
            a <= i <= b <= s@.len(),
            r@ == s@.subrange(a as int, i as int),
        decreases b - i,
    {
        r.push(s[i]);
        proof {
            assert(r@ =~= s@.subrange(a as int, i + 1 as int));
        }
        i = i + 1;
    }
    r
}

/// Byte-for-byte equality of two slices.
pub fn bytes_eq(a: &[u8], b: &[u8]) -> (r: bool)
    ensures
        r == (a@ == b@),
{
    if a.len() != b.len() {
        proof {
            assert(a@.len() != b@.len());
        }
        return false;
    }
    let n = a.len();
    let mut i: usize = 0;
    while i < n
        invariant
            i <= n,
            n == a@.len() == b@.len(),
            forall|j: int| 0 <= j < i ==> a@[j] == b@[j],
        decreases n - i,
    {
        if a[i] != b[i] {
            return false;
        }
        i = i + 1;
    }
    proof {
        assert(a@ =~= b@);
    }
    true
}

pub open spec fn is_digit(b: u8) -> bool {
    48 <= b <= 57
}

pub open spec fn is_hex(b: u8) -> bool {
    is_digit(b) || (97 <= b <= 102) || (65 <= b <= 70)
}

pub open spec fn hex_digit_val(b: u8) -> int {
    if is_digit(b) {
        b - 48
    } else if 97 <= b <= 102 {
        b - 87
    } else {
        b - 55
    }
}

pub open spec fn all_digits(d: Seq<u8>) -> bool {
    forall|i: int| 0 <= i < d.len() ==> is_digit(d[i])
}

pub open spec fn all_hex(d: Seq<u8>) -> bool {
    forall|i: int| 0 <= i < d.len() ==> is_hex(d[i])
}

/// Value of the decimal digits `d` appended to an accumulator.
pub open spec fn dec_val(d: Seq<u8>, acc: int) -> int
    decreases d.len(),
{
    if d.len() == 0 {
        acc
    } else {
        dec_val(d.drop_first(), acc * 10 + (d[0] - 48))
    }
}

/// Value of the hexadecimal digits `d` appended to an accumulator.
pub open spec fn hex_val(d: Seq<u8>, acc: int) -> int
    decreases d.len(),
{
    if d.len() == 0 {
        acc
    } else {
        hex_val(d.drop_first(), acc * 16 + hex_digit_val(d[0]))
    }
}

pub open spec fn pow10(n: nat) -> int
    decreases n,
{
    if n == 0 {
        1
    } else {
        10 * pow10((n - 1) as nat)
    }
}

pub open spec fn pow16(n: nat) -> int
    decreases n,
{
    if n == 0 {
        1
    } else {
        16 * pow16((n - 1) as nat)
    }
}

proof fn lemma_pow10_mono(i: nat, j: nat)
    requires
        i <= j,
    ensures
        pow10(i) <= pow10(j),
        pow10(i) >= 1,
    decreases j,
{
    if j > 0 {
        if i == j {
            lemma_pow10_mono(0, (j - 1) as nat);
        } else {
            lemma_pow10_mono(i, (j - 1) as nat);
        }
    }
}

proof fn lemma_pow16_mono(i: nat, j: nat)
    requires
        i <= j,
    ensures
        pow16(i) <= pow16(j),
        pow16(i) >= 1,
    decreases j,
{
    if j > 0 {
        if i == j {
            lemma_pow16_mono(0, (j - 1) as nat);
        } else {
            lemma_pow16_mono(i, (j - 1) as nat);
        }
    }
}

/// A Unicode scalar value (excludes the surrogate range).
pub open spec fn valid_scalar(v: int) -> bool {
    0 <= v <= 0x10FFFF && !(0xD800 <= v <= 0xDFFF)
}

/// The UTF-8 encoding of the scalar value `v`.
pub open spec fn utf8_bytes(v: int) -> Seq<u8> {
    if v < 0x80 {
        seq![v as u8]
    } else if v < 0x800 {
        seq![(0xC0 + v / 0x40) as u8, (0x80 + v % 0x40) as u8]
    } else if v < 0x10000 {
        seq![
            (0xE0 + v / 0x1000) as u8,
            (0x80 + (v / 0x40) % 0x40) as u8,
            (0x80 + v % 0x40) as u8,
        ]
    } else {
        seq![
            (0xF0 + v / 0x40000) as u8,
            (0x80 + (v / 0x1000) % 0x40) as u8,
            (0x80 + (v / 0x40) % 0x40) as u8,
            (0x80 + v % 0x40) as u8,
        ]
    }
}

pub open spec fn is_b2(s: Seq<u8>, a: u8, b: u8) -> bool {
    s.len() == 2 && s[0] == a && s[1] == b
}

pub open spec fn is_b3(s: Seq<u8>, a: u8, b: u8, c: u8) -> bool {
    s.len() == 3 && s[0] == a && s[1] == b && s[2] == c
}

pub open spec fn is_b4(s: Seq<u8>, a: u8, b: u8, c: u8, d: u8) -> bool {
    s.len() == 4 && s[0] == a && s[1] == b && s[2] == c && s[3] == d
}

/// What an entity reference stands for: `ent` is the name between `&` and
/// `;`, `raw` the whole reference. The five predefined names and numeric
/// character references are replaced; anything unrecognized is kept as
/// written.
pub open spec fn entity_bytes(ent: Seq<u8>, raw: Seq<u8>) -> Seq<u8> {
    if is_b3(ent, 97, 109, 112) {  // amp
        seq![38u8]
    } else if is_b2(ent, 108, 116) {  // lt
        seq![60u8]
    } else if is_b2(ent, 103, 116) {  // gt
        seq![62u8]
    } else if is_b4(ent, 113, 117, 111, 116) {  // quot
        seq![34u8]
    } else if is_b4(ent, 97, 112, 111, 115) {  // apos
        seq![39u8]
    } else if ent.len() >= 2 && ent[0] == 35 && (ent[1] == 120 || ent[1] == 88) {  // #x
        let d = ent.subrange(2, ent.len() as int);
        if 1 <= d.len() <= 6 && all_hex(d) && valid_scalar(hex_val(d, 0)) {
            utf8_bytes(hex_val(d, 0))
        } else {
            raw
        }
    } else if ent.len() >= 2 && ent[0] == 35 {  // #
        let d = ent.subrange(1, ent.len() as int);
        if 1 <= d.len() <= 7 && all_digits(d) && valid_scalar(dec_val(d, 0)) {
            utf8_bytes(dec_val(d, 0))
        } else {
            raw
        }
    } else {
        raw
    }
}

/// `v` with every entity reference replaced. A `&` without a closing `;`
/// ends the scan with the rest kept as written.
pub open spec fn unescape(v: Seq<u8>) -> Seq<u8>
    decreases v.len(),
    via unescape_dec
{
    if v.len() == 0 {
        Seq::empty()
    } else if v[0] == 38 {
        let semi = find_byte(v, 1, 59);
        if semi >= v.len() {
            v
        } else {
            entity_bytes(v.subrange(1, semi), v.subrange(0, semi + 1)) + unescape(
                v.subrange(semi + 1, v.len() as int),
            )
        }
    } else {
        seq![v[0]] + unescape(v.subrange(1, v.len() as int))
    }
}

#[via_fn]
proof fn unescape_dec(v: Seq<u8>) {
    if v.len() > 0 && v[0] == 38 {
        lemma_find_byte(v, 1, 59);
    }
}

pub fn all_digits_exec(d: &Vec<u8>) -> (r: bool)
    ensures
        r == all_digits(d@),
{
    let mut i: usize = 0;
    while i < d.len()
        invariant
            i <= d@.len(),
            forall|j: int| 0 <= j < i ==> is_digit(d@[j]),
        decreases d@.len() - i,
    {
        let b = d[i];
        if !(48 <= b && b <= 57) {
            return false;
        }
        i = i + 1;
    }
    true
}

fn all_hex_exec(d: &Vec<u8>) -> (r: bool)
    ensures
        r == all_hex(d@),
{
    let mut i: usize = 0;
    while i < d.len()
        invariant
            i <= d@.len(),
            forall|j: int| 0 <= j < i ==> is_hex(d@[j]),
        decreases d@.len() - i,
    {
        let b = d[i];
        if !((48 <= b && b <= 57) || (97 <= b && b <= 102) || (65 <= b && b <= 70)) {
            return false;
        }
        i = i + 1;
    }
    true
}

fn dec_scalar(d: &Vec<u8>) -> (r: u32)
    requires
        1 <= d@.len() <= 7,
        all_digits(d@),
    ensures
        r as int == dec_val(d@, 0),
{
    let mut acc: u32 = 0;
    let mut i: usize = 0;
    proof {
        assert(d@.subrange(0, d@.len() as int) =~= d@);
        assert(pow10(0) == 1);
        assert(pow10(1) == 10);
        assert(pow10(2) == 100);
        assert(pow10(3) == 1000);
        assert(pow10(4) == 10000);
        assert(pow10(5) == 100000);
        assert(pow10(6) == 1000000);
        assert(pow10(7) == 10000000);
    }
    while i < d.len()
        invariant
            i <= d@.len() <= 7,
            all_digits(d@),
            acc < pow10(i as nat),
            pow10(7) == 10000000,
            dec_val(d@, 0) == dec_val(d@.subrange(i as int, d@.len() as int), acc as int),
        decreases d@.len() - i,
    {
        let b = d[i];
        proof {
            lemma_pow10_mono(i as nat, 7);
            assert(pow10((i + 1) as nat) == 10 * pow10(i as nat));
            assert(d@.subrange(i as int, d@.len() as int).drop_first() =~= d@.subrange(
                i + 1 as int,
                d@.len() as int,
            ));
            assert(d@.subrange(i as int, d@.len() as int)[0] == d@[i as int]);
        }
        acc = acc * 10 + ((b - 48) as u32);
        i = i + 1;
    }
    proof {
        assert(d@.subrange(d@.len() as int, d@.len() as int).len() == 0);
    }
    acc
}

fn hex_scalar(d: &Vec<u8>) -> (r: u32)
    requires
        1 <= d@.len() <= 6,
        all_hex(d@),
    ensures
        r as int == hex_val(d@, 0),
{
    let mut acc: u32 = 0;
    let mut i: usize = 0;
    proof {
        assert(d@.subrange(0, d@.len() as int) =~= d@);
        assert(pow16(0) == 1);
        assert(pow16(1) == 16);
        assert(pow16(2) == 256);
        assert(pow16(3) == 4096);
        assert(pow16(4) == 65536);
        assert(pow16(5) == 1048576);
        assert(pow16(6) == 16777216);
    }
    while i < d.len()
        invariant
            i <= d@.len() <= 6,
            all_hex(d@),
            acc < pow16(i as nat),
            pow16(6) == 16777216,
            hex_val(d@, 0) == hex_val(d@.subrange(i as int, d@.len() as int), acc as int),
        decreases d@.len() - i,
    {
        let b = d[i];
        let v: u32 = if 48 <= b && b <= 57 {
            (b - 48) as u32
        } else if 97 <= b && b <= 102 {
            (b - 87) as u32
        } else {
            (b - 55) as u32
        };
        proof {
            lemma_pow16_mono(i as nat, 6);
            assert(pow16((i + 1) as nat) == 16 * pow16(i as nat));
            assert(d@.subrange(i as int, d@.len() as int).drop_first() =~= d@.subrange(
                i + 1 as int,
                d@.len() as int,
            ));
            assert(d@.subrange(i as int, d@.len() as int)[0] == d@[i as int]);
            assert(v == hex_digit_val(d@[i as int]));
        }
        acc = acc * 16 + v;
        i = i + 1;
    }
    proof {
        assert(d@.subrange(d@.len() as int, d@.len() as int).len() == 0);
    }
    acc
}

/// UTF-8 encoding of a scalar value.
fn utf8_encode(v: u32) -> (r: Vec<u8>)
    requires
        valid_scalar(v as int),
    ensures
        r@ == utf8_bytes(v as int),
{
    let mut r: Vec<u8> = Vec::new();
    if v < 0x80 {
        r.push(v as u8);
        proof {
            assert(r@ =~= utf8_bytes(v as int));
        }
    } else if v < 0x800 {
        r.push((0xC0 + v / 0x40) as u8);
        r.push((0x80 + v % 0x40) as u8);
        proof {
            assert(r@ =~= utf8_bytes(v as int));
        }
    } else if v < 0x10000 {
        r.push((0xE0 + v / 0x1000) as u8);
        r.push((0x80 + (v / 0x40) % 0x40) as u8);
        r.push((0x80 + v % 0x40) as u8);
        proof {
            assert(r@ =~= utf8_bytes(v as int));
        }
    } else {
        r.push((0xF0 + v / 0x40000) as u8);
        r.push((0x80 + (v / 0x1000) % 0x40) as u8);
        r.push((0x80 + (v / 0x40) % 0x40) as u8);
        r.push((0x80 + v % 0x40) as u8);
        proof {
            assert(r@ =~= utf8_bytes(v as int));
        }
    }
    r
}

/// Executable counterpart of `entity_bytes`.
fn entity_bytes_exec(ent: &Vec<u8>, raw: &Vec<u8>) -> (r: Vec<u8>)
    ensures
        r@ == entity_bytes(ent@, raw@),
{
    let n = ent.len();
    if n == 3 && ent[0] == 97 && ent[1] == 109 && ent[2] == 112 {
        let mut r: Vec<u8> = Vec::new();
        r.push(38);
        proof {
            assert(r@ =~= seq![38u8]);
        }
        return r;
    }
    if n == 2 && ent[0] == 108 && ent[1] == 116 {
        let mut r: Vec<u8> = Vec::new();
        r.push(60);
        proof {
            assert(r@ =~= seq![60u8]);
        }
        return r;
    }
    if n == 2 && ent[0] == 103 && ent[1] == 116 {
        let mut r: Vec<u8> = Vec::new();
        r.push(62);
        proof {
            assert(r@ =~= seq![62u8]);
        }
        return r;
    }
    if n == 4 && ent[0] == 113 && ent[1] == 117 && ent[2] == 111 && ent[3] == 116 {
        let mut r: Vec<u8> = Vec::new();
        r.push(34);
        proof {
            assert(r@ =~= seq![34u8]);
        }
        return r;
    }
    if n == 4 && ent[0] == 97 && ent[1] == 112 && ent[2] == 111 && ent[3] == 115 {
        let mut r: Vec<u8> = Vec::new();
        r.push(39);
        proof {
            assert(r@ =~= seq![39u8]);
        }
        return r;
    }
    if n >= 2 && ent[0] == 35 && (ent[1] == 120 || ent[1] == 88) {
        let d = subvec(ent, 2, n);
        if d.len() >= 1 && d.len() <= 6 && all_hex_exec(&d) {
            let v = hex_scalar(&d);
            if v <= 0x10FFFF && !(0xD800 <= v && v <= 0xDFFF) {
                return utf8_encode(v);
            }
        }
        return subvec(raw, 0, raw.len());
    }
    if n >= 2 && ent[0] == 35 {
        let d = subvec(ent, 1, n);
        if d.len() >= 1 && d.len() <= 7 && all_digits_exec(&d) {
            let v = dec_scalar(&d);
            if v <= 0x10FFFF && !(0xD800 <= v && v <= 0xDFFF) {
                return utf8_encode(v);
            }
        }
        return subvec(raw, 0, raw.len());
    }
    proof {
        assert(raw@.subrange(0, raw@.len() as int) =~= raw@);
    }
    subvec(raw, 0, raw.len())
}

/// Executable counterpart of `unescape`.
pub fn unescape_bytes(v: &Vec<u8>) -> (r: Vec<u8>)
    ensures
        r@ == unescape(v@),
    decreases v@.len(),
{
    if v.len() == 0 {
        let r: Vec<u8> = Vec::new();
        return r;
    }
    if v[0] == 38 {
        proof {
            lemma_find_byte(v@, 1, 59);
        }
        let semi = find_byte_at(v, 1, 59);
        if semi >= v.len() {
            proof {
                assert(v@.subrange(0, v@.len() as int) =~= v@);
            }
            return subvec(v, 0, v.len());
        }
        let ent = subvec(v, 1, semi);
        let raw = subvec(v, 0, semi + 1);
        let mut r = entity_bytes_exec(&ent, &raw);
        let rest = subvec(v, semi + 1, v.len());
        let mut tail = unescape_bytes(&rest);
        r.append(&mut tail);
        return r;
    }
    let mut r: Vec<u8> = Vec::new();
    r.push(v[0]);
    let rest = subvec(v, 1, v.len());
    let mut tail = unescape_bytes(&rest);
    r.append(&mut tail);
    proof {
        assert(r@ =~= seq![v@[0]] + unescape(v@.subrange(1, v@.len() as int)));
    }
    r
}

/// The attribute list written in a tag body `c` from index `from` on: a
/// run of `name="value"` (or single-quoted) pairs separated by whitespace.
/// Values are unescaped. A malformed rest ends the list.
pub open spec fn parse_attrs(c: Seq<u8>, from: int) -> Seq<(Seq<u8>, Seq<u8>)>
    decreases c.len() - from,
    via parse_attrs_dec
{
    if !(0 <= from <= c.len()) {
        Seq::empty()
    } else {
        let i = find_non_ws(c, from);
        if i >= c.len() {
            Seq::empty()
        } else {
            let eq = find_byte(c, i, 61);
            if eq + 1 >= c.len() {
                Seq::empty()
            } else {
                let q = c[eq + 1];
                if q != 34 && q != 39 {
                    Seq::empty()
                } else {
                    let close = find_byte(c, eq + 2, q);
                    if close >= c.len() {
                        Seq::empty()
                    } else {
                        seq![(c.subrange(i, eq), unescape(c.subrange(eq + 2, close)))]
                            + parse_attrs(c, close + 1)
                    }
                }
            }
        }
    }
}

#[via_fn]
proof fn parse_attrs_dec(c: Seq<u8>, from: int) {
    if 0 <= from <= c.len() {
        lemma_find_non_ws(c, from);
        let i = find_non_ws(c, from);
        if i < c.len() {
            lemma_find_byte(c, i, 61);
            let eq = find_byte(c, i, 61);
            if eq + 1 < c.len() {
                lemma_find_byte(c, eq + 2, 34);
                lemma_find_byte(c, eq + 2, 39);
            }
        }
    }
}

/// Executable counterpart of `parse_attrs`.
pub fn parse_attrs_at(c: &Vec<u8>, from: usize) -> (r: Vec<(Vec<u8>, Vec<u8>)>)
    requires
        from <= c@.len(),
    ensures
        attrs_view(r@) == parse_attrs(c@, from as int),
    decreases c@.len() - from,
{
    let i = find_non_ws_at(c, from);
    if i >= c.len() {
        let r: Vec<(Vec<u8>, Vec<u8>)> = Vec::new();
        proof {
            assert(attrs_view(r@) =~= parse_attrs(c@, from as int));
        }
        return r;
    }
    let eq = find_byte_at(c, i, 61);
    if c.len() - eq < 2 {
        let r: Vec<(Vec<u8>, Vec<u8>)> = Vec::new();
        proof {
            assert(attrs_view(r@) =~= parse_attrs(c@, from as int));
        }
        return r;
    }
    let q = c[eq + 1];
    if q != 34 && q != 39 {
        let r: Vec<(Vec<u8>, Vec<u8>)> = Vec::new();
        proof {
            assert(attrs_view(r@) =~= parse_attrs(c@, from as int));
        }
        return r;
    }
    let close = find_byte_at(c, eq + 2, q);
    if close >= c.len() {
        let r: Vec<(Vec<u8>, Vec<u8>)> = Vec::new();
        proof {
            assert(attrs_view(r@) =~= parse_attrs(c@, from as int));
        }
        return r;
    }
    let name = subvec(c, i, eq);
    let rawval = subvec(c, eq + 2, close);
    let val = unescape_bytes(&rawval);
    let mut rest = parse_attrs_at(c, close + 1);
    let mut r: Vec<(Vec<u8>, Vec<u8>)> = Vec::new();
    r.push((name, val));
    r.append(&mut rest);
    proof {
        assert(attrs_view(r@) =~= parse_attrs(c@, from as int));
    }
    r
}

/// One step of the scan: what stands at `pos`.
pub enum GTok {
    Tok { ev: GEvent, next: int },
    Done,
    Fail,
}

/// The event beginning at `pos`, and where the next one begins. `Done` at
/// the end of input; `Fail` on a tag or section that never closes.
pub open spec fn next_tok(s: Seq<u8>, pos: int) -> GTok {
    if !(0 <= pos < s.len()) {
        GTok::Done
    } else if s[pos] != 60 {
        GTok::Tok {
            ev: GEvent::Text { content: s.subrange(pos, find_byte(s, pos, 60)) },
            next: find_byte(s, pos, 60),
        }
    } else if pos + 1 >= s.len() {
        GTok::Fail
    } else if s[pos + 1] == 63 {  // <? ... ?>
        let e = find_pat2(s, pos, 63, 62);
        if e >= s.len() {
            GTok::Fail
        } else {
            GTok::Tok { ev: GEvent::Skip, next: e + 2 }
        }
    } else if s[pos + 1] == 33 {
        if pos + 4 <= s.len() && s[pos + 2] == 45 && s[pos + 3] == 45 {  // <!-- ... -->
            let e = find_pat3(s, pos + 4, 45, 45, 62);
            if e >= s.len() {
                GTok::Fail
            } else {
                GTok::Tok { ev: GEvent::Skip, next: e + 3 }
            }
        } else if pos + 9 <= s.len() && s[pos + 2] == 91 && s[pos + 3] == 67 && s[pos + 4] == 68
            && s[pos + 5] == 65 && s[pos + 6] == 84 && s[pos + 7] == 65 && s[pos + 8] == 91 {
            // <![CDATA[ ... ]]>
            let e = find_pat3(s, pos + 9, 93, 93, 62);
            if e >= s.len() {
                GTok::Fail
            } else {
                GTok::Tok { ev: GEvent::Text { content: s.subrange(pos + 9, e) }, next: e + 3 }
            }
        } else {  // <!DOCTYPE ...> and the like
            let e = find_byte(s, pos + 2, 62);
            if e >= s.len() {
                GTok::Fail
            } else {
                GTok::Tok { ev: GEvent::Skip, next: e + 1 }
            }
        }
    } else if s[pos + 1] == 47 {  // </name>
        let e = find_byte(s, pos + 2, 62);
        if e >= s.len() {
            GTok::Fail
        } else {
            let inner = s.subrange(pos + 2, e);
            GTok::Tok {
                ev: GEvent::End { name: inner.subrange(0, find_ws(inner, 0)) },
                next: e + 1,
            }
        }
    } else {  // <name ...> or <name .../>
        let e = find_byte(s, pos + 1, 62);
        if e >= s.len() {
            GTok::Fail
        } else {
            let innerend: int = if s[e - 1] == 47 {
                e - 1
            } else {
                e
            };
            let inner = s.subrange(pos + 1, innerend);
            let nend = find_ws(inner, 0);
            let name = inner.subrange(0, nend);
            let attrs = parse_attrs(inner, nend);
            if s[e - 1] == 47 {
                GTok::Tok { ev: GEvent::Empty { name, attrs }, next: e + 1 }
            } else {
                GTok::Tok { ev: GEvent::Start { name, attrs }, next: e + 1 }
            }
        }
    }
}

/// Every step of the scan lands strictly further right, within bounds.
pub proof fn lemma_next_tok(s: Seq<u8>, pos: int)
    requires
        0 <= pos <= s.len(),
    ensures
        match next_tok(s, pos) {
            GTok::Tok { ev, next } => pos < next <= s.len(),
            GTok::Done => pos == s.len(),
            GTok::Fail => true,
        },
{
    if pos < s.len() {
        if s[pos] != 60 {
            lemma_find_byte(s, pos, 60);
        } else if pos + 1 >= s.len() {
        } else if s[pos + 1] == 63 {
            lemma_find_pat2(s, pos, 63, 62);
        } else if s[pos + 1] == 33 {
            if pos + 4 <= s.len() && s[pos + 2] == 45 && s[pos + 3] == 45 {
                lemma_find_pat3(s, pos + 4, 45, 45, 62);
            } else if pos + 9 <= s.len() && s[pos + 2] == 91 && s[pos + 3] == 67 && s[pos + 4]
                == 68 && s[pos + 5] == 65 && s[pos + 6] == 84 && s[pos + 7] == 65 && s[pos + 8]
                == 91 {
                lemma_find_pat3(s, pos + 9, 93, 93, 62);
            } else {
                lemma_find_byte(s, pos + 2, 62);
            }
        } else if s[pos + 1] == 47 {
            lemma_find_byte(s, pos + 2, 62);
        } else {
            lemma_find_byte(s, pos + 1, 62);
        }
    }
}

/// The whole event sequence of `s`, or `None` if the scan fails part-way.
pub open spec fn scan(s: Seq<u8>, pos: int) -> Option<Seq<GEvent>>
    decreases s.len() - pos,
    via scan_dec
{
    match next_tok(s, pos) {
        GTok::Done => Some(Seq::empty()),
        GTok::Fail => None,
        GTok::Tok { ev, next } => match scan(s, next) {
            None => None,
            Some(t) => Some(seq![ev] + t),
        },
    }
}

#[via_fn]
proof fn scan_dec(s: Seq<u8>, pos: int) {
    if 0 <= pos <= s.len() {
        lemma_next_tok(s, pos);
    }
}

/// The event sequence of `s` up to the first failure, if any.
pub open spec fn scan_lossy(s: Seq<u8>, pos: int) -> Seq<GEvent>
    decreases s.len() - pos,
    via scan_lossy_dec
{
    match next_tok(s, pos) {
        GTok::Done => Seq::empty(),
        GTok::Fail => Seq::empty(),
        GTok::Tok { ev, next } => seq![ev] + scan_lossy(s, next),
    }
}

#[via_fn]
proof fn scan_lossy_dec(s: Seq<u8>, pos: int) {
    if 0 <= pos <= s.len() {
        lemma_next_tok(s, pos);
    }
}

/// Executable result of one scan step.
pub enum NextEvent {
    Event(XmlEvent, usize),
    Done,
    Fail,
}

/// Executable counterpart of `next_tok`.
pub fn next_event(s: &Vec<u8>, pos: usize) -> (r: NextEvent)
    requires
        pos <= s@.len(),
    ensures
        match r {
            NextEvent::Event(ev, next) => next_tok(s@, pos as int) == (GTok::Tok {
                ev: ev@,
                next: next as int,
            }) && pos < next <= s@.len(),
            NextEvent::Done => next_tok(s@, pos as int) == GTok::Done,
            NextEvent::Fail => next_tok(s@, pos as int) == GTok::Fail,
        },
{
    proof {
        lemma_next_tok(s@, pos as int);
    }
    if pos >= s.len() {
        return NextEvent::Done;
    }
    if s[pos] != 60 {
        let end = find_byte_at(s, pos, 60);
        proof {
            lemma_find_byte(s@, pos as int, 60);
        }
        let content = subvec(s, pos, end);
        return NextEvent::Event(XmlEvent::Text { content }, end);
    }
    if s.len() - pos < 2 {
        return NextEvent::Fail;
    }
    if s[pos + 1] == 63 {
        let e = find_pat2_at(s, pos, 63, 62);
        if e >= s.len() {
            return NextEvent::Fail;
        }
        proof {
            lemma_find_pat2(s@, pos as int, 63, 62);
        }
        return NextEvent::Event(XmlEvent::Skip, e + 2);
    }
    if s[pos + 1] == 33 {
        if s.len() - pos >= 4 && s[pos + 2] == 45 && s[pos + 3] == 45 {
            let e = find_pat3_at(s, pos + 4, 45, 45, 62);
            if e >= s.len() {
                return NextEvent::Fail;
            }
            proof {
                lemma_find_pat3(s@, pos + 4 as int, 45, 45, 62);
            }
            return NextEvent::Event(XmlEvent::Skip, e + 3);
        }
        if s.len() - pos >= 9 && s[pos + 2] == 91 && s[pos + 3] == 67 && s[pos + 4] == 68 && s[pos
            + 5] == 65 && s[pos + 6] == 84 && s[pos + 7] == 65 && s[pos + 8] == 91 {
            let e = find_pat3_at(s, pos + 9, 93, 93, 62);
            if e >= s.len() {
                return NextEvent::Fail;
            }
            proof {
                lemma_find_pat3(s@, pos + 9 as int, 93, 93, 62);
            }
            let content = subvec(s, pos + 9, e);
            return NextEvent::Event(XmlEvent::Text { content }, e + 3);
        }
        let e = find_byte_at(s, pos + 2, 62);
        if e >= s.len() {
            return NextEvent::Fail;
        }
        return NextEvent::Event(XmlEvent::Skip, e + 1);
    }
    if s[pos + 1] == 47 {
        let e = find_byte_at(s, pos + 2, 62);
        if e >= s.len() {
            return NextEvent::Fail;
        }
        let inner = subvec(s, pos + 2, e);
        let nend = find_ws_at(&inner, 0);
        let name = subvec(&inner, 0, nend);
        return NextEvent::Event(XmlEvent::End { name }, e + 1);
    }
    let e = find_byte_at(s, pos + 1, 62);
    if e >= s.len() {
        return NextEvent::Fail;
    }
    let selfclose = s[e - 1] == 47;
    let innerend = if selfclose {
        e - 1
    } else {
        e
    };
    proof {
        if selfclose {
            assert(s@[e - 1] == 47 && s@[pos as int] == 60);
            assert(e - 1 != pos);
        }
    }
    let inner = subvec(s, pos + 1, innerend);
    let nend = find_ws_at(&inner, 0);
    let name = subvec(&inner, 0, nend);
    let attrs = parse_attrs_at(&inner, nend);
    if selfclose {
        return NextEvent::Event(XmlEvent::Empty { name, attrs }, e + 1);
    }
    NextEvent::Event(XmlEvent::Start { name, attrs }, e + 1)
}

/// Joins a prefix of events onto a scan tail.
pub open spec fn opt_prepend(pre: Seq<GEvent>, rest: Option<Seq<GEvent>>) -> Option<Seq<GEvent>> {
    match rest {
        Some(t) => Some(pre + t),
        None => None,
    }
}

/// Scans the whole payload. The flag says whether the scan reached the end
/// of input; the events are everything scanned up to the end or the first
/// failure.
pub fn tokenize(s: &Vec<u8>) -> (r: (Vec<XmlEvent>, bool))
    ensures
        events_view(r.0@) == scan_lossy(s@, 0),
        r.1 == (scan(s@, 0) is Some),
        r.1 ==> scan(s@, 0) == Some(events_view(r.0@)),
        r.0@.len() <= s@.len(),
{
    let mut evs: Vec<XmlEvent> = Vec::new();
    let mut pos: usize = 0;
    proof {
        assert(events_view(evs@) =~= Seq::<GEvent>::empty());
        assert(scan_lossy(s@, 0) == events_view(evs@) + scan_lossy(s@, 0 as int)) by {
            assert(events_view(evs@) + scan_lossy(s@, 0 as int) =~= scan_lossy(s@, 0));
        }
        assert(scan(s@, 0) == opt_prepend(events_view(evs@), scan(s@, 0 as int))) by {
            match scan(s@, 0 as int) {
                Some(t) => {
                    assert(events_view(evs@) + t =~= t);
                },
                None => {},
            }
        }
    }
    loop
        invariant
            pos <= s@.len(),
            evs@.len() <= pos,
            scan_lossy(s@, 0) == events_view(evs@) + scan_lossy(s@, pos as int),
            scan(s@, 0) == opt_prepend(events_view(evs@), scan(s@, pos as int)),
        decreases s@.len() - pos,
    {
        match next_event(s, pos) {
            NextEvent::Done => {
                proof {
                    assert(scan_lossy(s@, pos as int) =~= Seq::<GEvent>::empty());
                    assert(events_view(evs@) + scan_lossy(s@, pos as int) =~= events_view(evs@));
                    assert(scan(s@, pos as int) == Some(Seq::<GEvent>::empty()));
                    assert(events_view(evs@) + Seq::<GEvent>::empty() =~= events_view(evs@));
                }
                return (evs, true);
            },
            NextEvent::Fail => {
                proof {
                    assert(scan_lossy(s@, pos as int) =~= Seq::<GEvent>::empty());
                    assert(events_view(evs@) + scan_lossy(s@, pos as int) =~= events_view(evs@));
                    assert(scan(s@, pos as int) is None);
                }
                return (evs, false);
            },
            NextEvent::Event(ev, next) => {
                proof {
                    let pre = events_view(evs@);
                    let gv = ev@;
                    assert(events_view(evs@.push(ev)) =~= pre + seq![gv]);
                    assert(scan_lossy(s@, pos as int) == seq![gv] + scan_lossy(s@, next as int));
                    assert(pre + (seq![gv] + scan_lossy(s@, next as int)) =~= (pre + seq![gv])
                        + scan_lossy(s@, next as int));
                    match scan(s@, next as int) {
                        Some(t) => {
                            assert(scan(s@, pos as int) == Some(seq![gv] + t));
                            assert(pre + (seq![gv] + t) =~= (pre + seq![gv]) + t);
                        },
                        None => {
                            assert(scan(s@, pos as int) is None);
                        },
                    }
                }
                evs.push(ev);
                pos = next;
            },
        }
    }
}

/// The value of the first attribute named `name`; empty when there is none.
pub open spec fn attr_of(attrs: Seq<(Seq<u8>, Seq<u8>)>, name: Seq<u8>) -> Seq<u8>
    decreases attrs.len(),
{
    if attrs.len() == 0 {
        Seq::empty()
    } else if attrs[0].0 == name {
        attrs[0].1
    } else {
        attr_of(attrs.drop_first(), name)
    }
}

/// Executable counterpart of `attr_of`: the first attribute of that name,
/// or an empty value.
pub fn attr_value(attrs: &Vec<(Vec<u8>, Vec<u8>)>, name: &Vec<u8>) -> (r: Vec<u8>)
    ensures
        r@ == attr_of(attrs_view(attrs@), name@),
{
    let ghost full = attrs_view(attrs@);
    let mut i: usize = 0;
    proof {
        assert(full.subrange(0, full.len() as int) =~= full);
    }
    while i < attrs.len()
        invariant
            i <= attrs@.len(),
            full == attrs_view(attrs@),
            attr_of(full, name@) == attr_of(full.subrange(i as int, full.len() as int), name@),
        decreases attrs@.len() - i,
    {
        let hit = bytes_eq(attrs[i].0.as_slice(), name.as_slice());
        proof {
            assert(full.subrange(i as int, full.len() as int)[0] == full[i as int]);
            assert(full.subrange(i as int, full.len() as int).drop_first() =~= full.subrange(
                i + 1 as int,
                full.len() as int,
            ));
        }
        if hit {
            let v = subvec(&attrs[i].1, 0, attrs[i].1.len());
            proof {
                assert(attrs@[i as int].1@.subrange(0, attrs@[i as int].1@.len() as int) =~= attrs@[
                    i as int].1@);
            }
            return v;
        }
        i = i + 1;
    }
    proof {
        assert(full.subrange(i as int, full.len() as int).len() == 0);
    }
    let r: Vec<u8> = Vec::new();
    r
}

} // verus!
