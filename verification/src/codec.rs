//! The wire codec: a record is encoded as one self-contained line of
//! JSON text with the fields `value`, `message`, `level`, `file`,
//! `module` and `line`, in that order. The encoding is canonical:
//! no whitespace, a fixed escape form, and fixed field order, so that
//! every record has exactly one wire form and decoding is its exact
//! inverse.
//!
//! String content is escaped byte-wise: a quote, a backslash or a
//! control byte is written as a six-byte `\u00..` escape with lowercase
//! hex digits; every other byte is written verbatim.

use crate::level::Level;
use crate::record::{
    is_number_byte, is_number_text, json_list_model, json_list_wf, json_model, json_pairs_model,
    json_pairs_wf, json_wf, record_model, record_wf, Json, JsonView, Record, RecordView,
};
use vstd::prelude::*;

verus! {

/// Bytes that must be escaped inside string content: control bytes,
/// the quote and the backslash.
pub open spec fn needs_escape(b: u8) -> bool {
    b < 0x20 || b == 0x22u8 || b == 0x5cu8
}

/// The lowercase hex digit for a value below 16.
pub open spec fn hex_digit(n: u8) -> u8 {
    if n < 10 {
        (0x30 + n) as u8
    } else {
        (0x57 + n) as u8
    }
}

/// The value of a lowercase hex digit byte.
pub open spec fn hex_val(c: u8) -> u8 {
    if 0x30 <= c <= 0x39 {
        (c - 0x30) as u8
    } else {
        (c - 0x57) as u8
    }
}

/// A byte that is a lowercase hex digit.
pub open spec fn is_hex_digit(c: u8) -> bool {
    (0x30 <= c <= 0x39) || (0x61 <= c <= 0x66)
}

/// The wire form of one string-content byte.
pub open spec fn esc(b: u8) -> Seq<u8> {
    if needs_escape(b) {
        seq![0x5cu8, 0x75u8, 0x30u8, 0x30u8, hex_digit(b / 16), hex_digit(b % 16)]
    } else {
        seq![b]
    }
}

/// The wire form of string content, byte by byte.
pub open spec fn enc_bytes(c: Seq<u8>) -> Seq<u8>
    decreases c.len(),
{
    if c.len() == 0 {
        Seq::empty()
    } else {
        esc(c[0]) + enc_bytes(c.subrange(1, c.len() as int))
    }
}

/// The wire form of a string: quoted, escaped content.
pub open spec fn enc_str(c: Seq<u8>) -> Seq<u8> {
    seq![0x22u8] + enc_bytes(c) + seq![0x22u8]
}

/// The wire bytes of the `null` literal.
pub open spec fn lit_null() -> Seq<u8> {
    seq![0x6eu8, 0x75u8, 0x6cu8, 0x6cu8]
}

/// The wire form of a payload value.
pub open spec fn enc_json(m: JsonView) -> Seq<u8>
    decreases m, 0int,
{
    match m {
        JsonView::Null => lit_null(),
        JsonView::Bool(b) => if b {
            seq![0x74u8, 0x72u8, 0x75u8, 0x65u8]
        } else {
            seq![0x66u8, 0x61u8, 0x6cu8, 0x73u8, 0x65u8]
        },
        JsonView::Num(t) => t,
        JsonView::Str(c) => enc_str(c),
        JsonView::Arr(elems) => seq![0x5bu8] + enc_list(elems) + seq![0x5du8],
        JsonView::Obj(members) => seq![0x7bu8] + enc_pairs(members) + seq![0x7du8],
    }
}

/// The wire form of the elements of an array, commas between them.
pub open spec fn enc_list(s: Seq<JsonView>) -> Seq<u8>
    decreases s, 1int,
{
    if s.len() == 0 {
        Seq::empty()
    } else {
        enc_json(s[0]) + enc_list_sep(s.subrange(1, s.len() as int))
    }
}

/// The wire form of array elements each preceded by its comma.
pub open spec fn enc_list_sep(s: Seq<JsonView>) -> Seq<u8>
    decreases s, 2int,
{
    if s.len() == 0 {
        Seq::empty()
    } else {
        seq![0x2cu8] + enc_json(s[0]) + enc_list_sep(s.subrange(1, s.len() as int))
    }
}

/// The wire form of one object member: quoted key, colon, value.
pub open spec fn enc_member(kv: (Seq<u8>, JsonView)) -> Seq<u8>
    decreases kv, 0int,
{
    enc_str(kv.0) + seq![0x3au8] + enc_json(kv.1)
}

/// The wire form of the members of an object, commas between them.
pub open spec fn enc_pairs(s: Seq<(Seq<u8>, JsonView)>) -> Seq<u8>
    decreases s, 1int,
{
    if s.len() == 0 {
        Seq::empty()
    } else {
        enc_member(s[0]) + enc_pairs_sep(s.subrange(1, s.len() as int))
    }
}

/// The wire form of object members each preceded by its comma.
pub open spec fn enc_pairs_sep(s: Seq<(Seq<u8>, JsonView)>) -> Seq<u8>
    decreases s, 2int,
{
    if s.len() == 0 {
        Seq::empty()
    } else {
        seq![0x2cu8] + enc_member(s[0]) + enc_pairs_sep(s.subrange(1, s.len() as int))
    }
}

/// The decimal digits of a number, most significant first.
pub open spec fn dec_digits(n: nat) -> Seq<u8>
    decreases n,
{
    if n < 10 {
        seq![(0x30 + n) as u8]
    } else {
        dec_digits(n / 10) + seq![(0x30 + n % 10) as u8]
    }
}

/// The numeric value of a sequence of decimal digit bytes.
pub open spec fn val_digits(ds: Seq<u8>) -> int
    decreases ds.len(),
{
    if ds.len() == 0 {
        0
    } else {
        val_digits(ds.subrange(0, ds.len() - 1)) * 10 + (ds.last() - 0x30)
    }
}

/// Powers of ten.
pub open spec fn pow10(k: nat) -> nat
    decreases k,
{
    if k == 0 {
        1
    } else {
        10 * pow10((k - 1) as nat)
    }
}

/// The textual name of a severity level.
pub open spec fn level_text(l: Level) -> Seq<u8> {
    match l {
        Level::Error => seq![0x45u8, 0x72u8, 0x72u8, 0x6fu8, 0x72u8],
        Level::Warn => seq![0x57u8, 0x61u8, 0x72u8, 0x6eu8],
        Level::Info => seq![0x49u8, 0x6eu8, 0x66u8, 0x6fu8],
        Level::Debug => seq![0x44u8, 0x65u8, 0x62u8, 0x75u8, 0x67u8],
        Level::Trace => seq![0x54u8, 0x72u8, 0x61u8, 0x63u8, 0x65u8],
    }
}

/// `{"value":` — the opening of the record object.
pub open spec fn lit_value() -> Seq<u8> {
    seq![0x7bu8, 0x22u8, 0x76u8, 0x61u8, 0x6cu8, 0x75u8, 0x65u8, 0x22u8, 0x3au8]
}

/// `,"message":`
pub open spec fn lit_message() -> Seq<u8> {
    seq![0x2cu8, 0x22u8, 0x6du8, 0x65u8, 0x73u8, 0x73u8, 0x61u8, 0x67u8, 0x65u8, 0x22u8, 0x3au8]
}

/// `,"level":`
pub open spec fn lit_level() -> Seq<u8> {
    seq![0x2cu8, 0x22u8, 0x6cu8, 0x65u8, 0x76u8, 0x65u8, 0x6cu8, 0x22u8, 0x3au8]
}

/// `,"file":`
pub open spec fn lit_file() -> Seq<u8> {
    seq![0x2cu8, 0x22u8, 0x66u8, 0x69u8, 0x6cu8, 0x65u8, 0x22u8, 0x3au8]
}

/// `,"module":`
pub open spec fn lit_module() -> Seq<u8> {
    seq![0x2cu8, 0x22u8, 0x6du8, 0x6fu8, 0x64u8, 0x75u8, 0x6cu8, 0x65u8, 0x22u8, 0x3au8]
}

/// `,"line":`
pub open spec fn lit_line() -> Seq<u8> {
    seq![0x2cu8, 0x22u8, 0x6cu8, 0x69u8, 0x6eu8, 0x65u8, 0x22u8, 0x3au8]
}

/// The wire form of the optional payload field.
pub open spec fn enc_value_field(v: Option<JsonView>) -> Seq<u8> {
    match v {
        Option::Some(j) => enc_json(j),
        Option::None => lit_null(),
    }
}

/// The wire form of an optional string field.
pub open spec fn enc_opt_str(v: Option<Seq<u8>>) -> Seq<u8> {
    match v {
        Option::Some(c) => enc_str(c),
        Option::None => lit_null(),
    }
}

/// The wire form of the optional line-number field.
pub open spec fn enc_line_field(v: Option<u32>) -> Seq<u8> {
    match v {
        Option::Some(n) => dec_digits(n as nat),
        Option::None => lit_null(),
    }
}

/// The full wire form of a record.
pub open spec fn enc_record(m: RecordView) -> Seq<u8> {
    lit_value() + enc_value_field(m.value) + lit_message() + enc_str(m.message) + lit_level()
        + enc_str(level_text(m.level)) + lit_file() + enc_opt_str(m.file) + lit_module()
        + enc_opt_str(m.module) + lit_line() + enc_line_field(m.line) + seq![0x7du8]
}

/// Escape codes concatenate over split content.
pub proof fn lemma_enc_bytes_app(c1: Seq<u8>, c2: Seq<u8>)
    ensures
        enc_bytes(c1 + c2) == enc_bytes(c1) + enc_bytes(c2),
    decreases c1.len(),
{
    if c1.len() == 0 {
        assert(c1 + c2 =~= c2);
        assert(enc_bytes(c1) + enc_bytes(c2) =~= enc_bytes(c2));
    } else {
        let c = c1 + c2;
        assert(c[0] == c1[0]);
        assert(c.subrange(1, c.len() as int) =~= c1.subrange(1, c1.len() as int) + c2);
        lemma_enc_bytes_app(c1.subrange(1, c1.len() as int), c2);
        assert(enc_bytes(c1 + c2) =~= enc_bytes(c1) + enc_bytes(c2));
    }
}

/// Appending one byte appends its escape code.
pub proof fn lemma_enc_bytes_snoc(c: Seq<u8>, b: u8)
    ensures
        enc_bytes(c.push(b)) == enc_bytes(c) + esc(b),
{
    reveal_with_fuel(enc_bytes, 3);
    assert(c.push(b) =~= c + seq![b]);
    lemma_enc_bytes_app(c, seq![b]);
    assert(seq![b].subrange(1, 1) =~= Seq::<u8>::empty());
    assert(enc_bytes(seq![b]) =~= esc(b));
}

/// Content without escape-needing bytes is carried verbatim.
pub proof fn lemma_enc_bytes_plain(c: Seq<u8>)
    requires
        forall|i: int| 0 <= i < c.len() ==> !needs_escape(#[trigger] c[i]),
    ensures
        enc_bytes(c) == c,
    decreases c.len(),
{
    if c.len() == 0 {
    } else {
        lemma_enc_bytes_plain(c.subrange(1, c.len() as int));
        assert(enc_bytes(c) =~= c);
    }
}

/// A hex digit round-trips through its value, and every byte splits
/// into its two hex digits.
pub proof fn lemma_hex(x: u8)
    requires
        x < 16,
    ensures
        is_hex_digit(hex_digit(x)),
        hex_val(hex_digit(x)) == x,
{
}

/// The first byte of a well-formed value's wire form classifies the
/// value, and the wire form is never empty.
pub proof fn lemma_enc_json_first(m: JsonView)
    requires
        json_wf(m),
    ensures
        enc_json(m).len() >= 1,
        m is Null ==> enc_json(m)[0] == 0x6eu8,
        m is Bool ==> (enc_json(m)[0] == 0x74u8 || enc_json(m)[0] == 0x66u8),
        m is Num ==> (enc_json(m)[0] == 0x2du8 || (0x30 <= enc_json(m)[0] <= 0x39)),
        m is Str ==> enc_json(m)[0] == 0x22u8,
        m is Arr ==> enc_json(m)[0] == 0x5bu8,
        m is Obj ==> enc_json(m)[0] == 0x7bu8,
{
}

/// Decimal digit text is made of digits, with no leading zero unless
/// the number is a single digit.
pub proof fn lemma_dec_digits_shape(n: nat)
    ensures
        dec_digits(n).len() >= 1,
        forall|i: int| 0 <= i < dec_digits(n).len() ==> 0x30 <= #[trigger] dec_digits(n)[i] <= 0x39,
        dec_digits(n).len() > 1 ==> dec_digits(n)[0] != 0x30,
    decreases n,
{
    reveal_with_fuel(dec_digits, 3);
    if n < 10 {
    } else {
        lemma_dec_digits_shape(n / 10);
        assert(n / 10 >= 1) by (nonlinear_arith)
            requires
                n >= 10,
        ;
        if n / 10 < 10 {
            assert(dec_digits(n / 10) == seq![(0x30 + n / 10) as u8]);
        }
    }
}

/// The value of a number's digit text is the number.
pub proof fn lemma_val_dec(n: nat)
    ensures
        val_digits(dec_digits(n)) == n,
    decreases n,
{
    reveal_with_fuel(val_digits, 3);
    reveal_with_fuel(dec_digits, 2);
    if n < 10 {
        assert(dec_digits(n).subrange(0, 0) =~= Seq::<u8>::empty());
    } else {
        lemma_val_dec(n / 10);
        let ds = dec_digits(n);
        assert(ds.subrange(0, ds.len() - 1) =~= dec_digits(n / 10));
        assert(n == (n / 10) * 10 + n % 10) by (nonlinear_arith);
    }
}

/// The value of digit text is nonnegative and below the power of ten
/// of its length.
pub proof fn lemma_val_bound(ds: Seq<u8>)
    requires
        forall|i: int| 0 <= i < ds.len() ==> 0x30 <= #[trigger] ds[i] <= 0x39,
    ensures
        0 <= val_digits(ds) < pow10(ds.len() as nat),
    decreases ds.len(),
{
    reveal_with_fuel(val_digits, 2);
    if ds.len() == 0 {
    } else {
        let front = ds.subrange(0, ds.len() - 1);
        lemma_val_bound(front);
        assert(pow10(ds.len() as nat) == 10 * pow10(front.len() as nat));
    }
}

/// Digit text with a nonzero first digit has a positive value.
pub proof fn lemma_val_lower(ds: Seq<u8>)
    requires
        ds.len() >= 1,
        forall|i: int| 0 <= i < ds.len() ==> 0x30 <= #[trigger] ds[i] <= 0x39,
        ds[0] != 0x30,
    ensures
        val_digits(ds) >= 1,
    decreases ds.len(),
{
    reveal_with_fuel(val_digits, 3);
    if ds.len() == 1 {
    } else {
        let front = ds.subrange(0, ds.len() - 1);
        lemma_val_lower(front);
    }
}

/// Canonical digit text is the digit text of its value.
pub proof fn lemma_dec_val(ds: Seq<u8>)
    requires
        ds.len() >= 1,
        forall|i: int| 0 <= i < ds.len() ==> 0x30 <= #[trigger] ds[i] <= 0x39,
        ds.len() > 1 ==> ds[0] != 0x30,
    ensures
        dec_digits(val_digits(ds) as nat) == ds,
    decreases ds.len(),
{
    reveal_with_fuel(val_digits, 3);
    reveal_with_fuel(dec_digits, 3);
    lemma_val_bound(ds);
    if ds.len() == 1 {
        assert(ds.subrange(0, 0) =~= Seq::<u8>::empty());
        assert(val_digits(ds) == ds[0] - 0x30);
        assert(dec_digits(val_digits(ds) as nat) =~= ds);
    } else {
        let front = ds.subrange(0, ds.len() - 1);
        let d = ds.last() - 0x30;
        lemma_val_lower(front);
        lemma_dec_val(front);
        let a = val_digits(front);
        assert(val_digits(ds) == a * 10 + d);
        assert(a * 10 + d >= 10) by (nonlinear_arith)
            requires
                a >= 1 && d >= 0,
        ;
        assert((a * 10 + d) / 10 == a && (a * 10 + d) % 10 == d) by (nonlinear_arith)
            requires
                0 <= d < 10 && a >= 0,
        ;
        assert(dec_digits(val_digits(ds) as nat) =~= ds);
    }
}

/// A number that fits below a power of ten has at most that many
/// digits.
pub proof fn lemma_dec_len(n: nat, k: nat)
    requires
        k >= 1,
        n < pow10(k),
    ensures
        dec_digits(n).len() <= k,
    decreases n,
{
    reveal_with_fuel(pow10, 3);
    if n < 10 {
    } else {
        assert(k >= 2) by {
            if k == 1 {
                assert(pow10(1) == 10);
            }
        }
        assert(n / 10 < pow10((k - 1) as nat)) by (nonlinear_arith)
            requires
                n < pow10(k) && pow10(k) == 10 * pow10((k - 1) as nat) && n >= 10,
        ;
        lemma_dec_len(n / 10, (k - 1) as nat);
    }
}

/// Ten to the tenth, the bound for the digit count of a 32-bit value.
pub proof fn lemma_pow10_ten()
    ensures
        pow10(10) == 10_000_000_000,
{
    assert(pow10(0) == 1);
    assert(pow10(1) == 10);
    assert(pow10(2) == 100);
    assert(pow10(3) == 1000);
    assert(pow10(4) == 10000);
    assert(pow10(5) == 100000);
    assert(pow10(6) == 1000000);
    assert(pow10(7) == 10000000);
    assert(pow10(8) == 100000000);
    assert(pow10(9) == 1000000000);
}

/// Appending an element to an array appends its abstract value.
pub proof fn lemma_json_list_model_snoc(s: Seq<Json>, j: Json)
    ensures
        json_list_model(s.push(j)) == json_list_model(s).push(json_model(j)),
    decreases s.len(),
{
    reveal_with_fuel(json_list_model, 3);
    if s.len() == 0 {
        assert(s.push(j)[0] == j);
        assert(s.push(j).subrange(1, 1) =~= Seq::<Json>::empty());
        assert(json_list_model(s.push(j)) =~= json_list_model(s).push(json_model(j)));
    } else {
        assert(s.push(j).subrange(1, s.len() as int + 1) =~= s.subrange(1, s.len() as int).push(j));
        lemma_json_list_model_snoc(s.subrange(1, s.len() as int), j);
        assert(json_list_model(s.push(j)) =~= json_list_model(s).push(json_model(j)));
    }
}

/// Appending a member to an object appends its abstract pair.
pub proof fn lemma_json_pairs_model_snoc(s: Seq<(Vec<u8>, Json)>, kv: (Vec<u8>, Json))
    ensures
        json_pairs_model(s.push(kv)) == json_pairs_model(s).push((kv.0@, json_model(kv.1))),
    decreases s.len(),
{
    reveal_with_fuel(json_pairs_model, 3);
    if s.len() == 0 {
        assert(s.push(kv)[0] == kv);
        assert(s.push(kv).subrange(1, 1) =~= Seq::<(Vec<u8>, Json)>::empty());
        assert(json_pairs_model(s.push(kv)) =~= json_pairs_model(s).push(
            (kv.0@, json_model(kv.1)),
        ));
    } else {
        assert(s.push(kv).subrange(1, s.len() as int + 1) =~= s.subrange(1, s.len() as int).push(kv));
        lemma_json_pairs_model_snoc(s.subrange(1, s.len() as int), kv);
        assert(json_pairs_model(s.push(kv)) =~= json_pairs_model(s).push(
            (kv.0@, json_model(kv.1)),
        ));
    }
}

/// Appending an element extends the separated wire form.
pub proof fn lemma_enc_list_sep_snoc(s: Seq<JsonView>, x: JsonView)
    ensures
        enc_list_sep(s.push(x)) == enc_list_sep(s) + seq![0x2cu8] + enc_json(x),
    decreases s.len(),
{
    reveal_with_fuel(enc_list_sep, 3);
    if s.len() == 0 {
        assert(s.push(x)[0] == x);
        assert(s.push(x).subrange(1, 1) =~= Seq::<JsonView>::empty());
        assert(enc_list_sep(s.push(x)) =~= enc_list_sep(s) + seq![0x2cu8] + enc_json(x));
    } else {
        assert(s.push(x).subrange(1, s.len() as int + 1) =~= s.subrange(1, s.len() as int).push(x));
        lemma_enc_list_sep_snoc(s.subrange(1, s.len() as int), x);
        assert(enc_list_sep(s.push(x)) =~= enc_list_sep(s) + seq![0x2cu8] + enc_json(x));
    }
}

/// Appending an element extends an array's element wire form.
pub proof fn lemma_enc_list_snoc(s: Seq<JsonView>, x: JsonView)
    ensures
        s.len() == 0 ==> enc_list(s.push(x)) == enc_json(x),
        s.len() > 0 ==> enc_list(s.push(x)) == enc_list(s) + seq![0x2cu8] + enc_json(x),
{
    reveal_with_fuel(enc_list, 3);
    reveal_with_fuel(enc_list_sep, 3);
    if s.len() == 0 {
        assert(s.push(x)[0] == x);
        assert(s.push(x).subrange(1, 1) =~= Seq::<JsonView>::empty());
        assert(enc_list(s.push(x)) =~= enc_json(x));
    } else {
        assert(s.push(x)[0] == s[0]);
        assert(s.push(x).subrange(1, s.len() as int + 1) =~= s.subrange(1, s.len() as int).push(x));
        lemma_enc_list_sep_snoc(s.subrange(1, s.len() as int), x);
        assert(enc_list(s.push(x)) =~= enc_list(s) + seq![0x2cu8] + enc_json(x));
    }
}

/// Appending a member extends the separated wire form.
pub proof fn lemma_enc_pairs_sep_snoc(s: Seq<(Seq<u8>, JsonView)>, kv: (Seq<u8>, JsonView))
    ensures
        enc_pairs_sep(s.push(kv)) == enc_pairs_sep(s) + seq![0x2cu8] + enc_member(kv),
    decreases s.len(),
{
    reveal_with_fuel(enc_pairs_sep, 3);
    if s.len() == 0 {
        assert(s.push(kv)[0] == kv);
        assert(s.push(kv).subrange(1, 1) =~= Seq::<(Seq<u8>, JsonView)>::empty());
        assert(enc_pairs_sep(s.push(kv)) =~= enc_pairs_sep(s) + seq![0x2cu8] + enc_member(kv));
    } else {
        assert(s.push(kv).subrange(1, s.len() as int + 1) =~= s.subrange(1, s.len() as int).push(kv));
        lemma_enc_pairs_sep_snoc(s.subrange(1, s.len() as int), kv);
        assert(enc_pairs_sep(s.push(kv)) =~= enc_pairs_sep(s) + seq![0x2cu8] + enc_member(kv));
    }
}

/// Appending a member extends an object's member wire form.
pub proof fn lemma_enc_pairs_snoc(s: Seq<(Seq<u8>, JsonView)>, kv: (Seq<u8>, JsonView))
    ensures
        s.len() == 0 ==> enc_pairs(s.push(kv)) == enc_member(kv),
        s.len() > 0 ==> enc_pairs(s.push(kv)) == enc_pairs(s) + seq![0x2cu8] + enc_member(kv),
{
    reveal_with_fuel(enc_pairs, 3);
    reveal_with_fuel(enc_pairs_sep, 3);
    if s.len() == 0 {
        assert(s.push(kv)[0] == kv);
        assert(s.push(kv).subrange(1, 1) =~= Seq::<(Seq<u8>, JsonView)>::empty());
        assert(enc_pairs(s.push(kv)) =~= enc_member(kv));
    } else {
        assert(s.push(kv)[0] == s[0]);
        assert(s.push(kv).subrange(1, s.len() as int + 1) =~= s.subrange(1, s.len() as int).push(kv));
        lemma_enc_pairs_sep_snoc(s.subrange(1, s.len() as int), kv);
        assert(enc_pairs(s.push(kv)) =~= enc_pairs(s) + seq![0x2cu8] + enc_member(kv));
    }
}

/// Well-formedness of an element sequence, element by element.
pub proof fn lemma_json_list_wf_snoc(s: Seq<JsonView>, x: JsonView)
    ensures
        json_list_wf(s.push(x)) == (json_list_wf(s) && json_wf(x)),
    decreases s.len(),
{
    reveal_with_fuel(json_list_wf, 3);
    if s.len() == 0 {
        assert(s.push(x)[0] == x);
        assert(s.push(x).subrange(1, 1) =~= Seq::<JsonView>::empty());
    } else {
        assert(s.push(x)[0] == s[0]);
        assert(s.push(x).subrange(1, s.len() as int + 1) =~= s.subrange(1, s.len() as int).push(x));
        lemma_json_list_wf_snoc(s.subrange(1, s.len() as int), x);
    }
}

/// Well-formedness of a member sequence, member by member.
pub proof fn lemma_json_pairs_wf_snoc(s: Seq<(Seq<u8>, JsonView)>, kv: (Seq<u8>, JsonView))
    ensures
        json_pairs_wf(s.push(kv)) == (json_pairs_wf(s) && json_wf(kv.1)),
    decreases s.len(),
{
    reveal_with_fuel(json_pairs_wf, 3);
    if s.len() == 0 {
        assert(s.push(kv)[0] == kv);
        assert(s.push(kv).subrange(1, 1) =~= Seq::<(Seq<u8>, JsonView)>::empty());
    } else {
        assert(s.push(kv)[0] == s[0]);
        assert(s.push(kv).subrange(1, s.len() as int + 1) =~= s.subrange(1, s.len() as int).push(kv));
        lemma_json_pairs_wf_snoc(s.subrange(1, s.len() as int), kv);
    }
}

/// The lowercase hex digit byte for a value below 16.
fn hex_digit_e(n: u8) -> (r: u8)
    requires
        n < 16,
    ensures
        r == hex_digit(n),
{
    if n < 10 {
        0x30 + n
    } else {
        0x57 + n
    }
}

/// Append the escaped wire form of string content.
#[verifier::loop_isolation(false)]
fn encode_bytes_into(content: &Vec<u8>, out: &mut Vec<u8>)
    ensures
        final(out)@ == old(out)@ + enc_bytes(content@),
{
    let mut i: usize = 0;
    while i < content.len()
        invariant
            i <= content@.len(),
            out@ == old(out)@ + enc_bytes(content@.subrange(0, i as int)),
        decreases content@.len() - i,
    {
        let b = content[i];
        if b < 0x20 || b == 0x22 || b == 0x5c {
            out.push(0x5c);
            out.push(0x75);
            out.push(0x30);
            out.push(0x30);
            out.push(hex_digit_e(b / 16));
            out.push(hex_digit_e(b % 16));
        } else {
            out.push(b);
        }
        proof {
            assert(content@.subrange(0, i + 1) =~= content@.subrange(0, i as int).push(b));
            lemma_enc_bytes_snoc(content@.subrange(0, i as int), b);
            assert(out@ =~= old(out)@ + enc_bytes(content@.subrange(0, i + 1)));
        }
        i = i + 1;
    }
    proof {
        assert(content@.subrange(0, content@.len() as int) =~= content@);
    }
}

/// Append the quoted wire form of a string.
fn encode_str_into(content: &Vec<u8>, out: &mut Vec<u8>)
    ensures
        final(out)@ == old(out)@ + enc_str(content@),
{
    out.push(0x22);
    encode_bytes_into(content, out);
    out.push(0x22);
    proof {
        assert(out@ =~= old(out)@ + enc_str(content@));
    }
}

/// Append the `null` literal.
fn push_null(out: &mut Vec<u8>)
    ensures
        final(out)@ == old(out)@ + lit_null(),
{
    out.push(0x6e);
    out.push(0x75);
    out.push(0x6c);
    out.push(0x6c);
    proof {
        assert(out@ =~= old(out)@ + lit_null());
    }
}

/// Append the wire form of one payload value.
#[verifier::loop_isolation(false)]
#[verifier::rlimit(100)]
fn encode_json_into(j: &Json, out: &mut Vec<u8>)
    ensures
        final(out)@ == old(out)@ + enc_json(json_model(*j)),
    decreases *j,
{
    match j {
        Json::Null => {
            push_null(out);
        },
        Json::Bool(b) => {
            if *b {
                out.push(0x74);
                out.push(0x72);
                out.push(0x75);
                out.push(0x65);
            } else {
                out.push(0x66);
                out.push(0x61);
                out.push(0x6c);
                out.push(0x73);
                out.push(0x65);
            }
            proof {
                assert(out@ =~= old(out)@ + enc_json(json_model(*j)));
            }
        },
        Json::Num(t) => {
            let mut q: usize = 0;
            while q < t.len()
                invariant
                    q <= t@.len(),
                    out@ == old(out)@ + t@.subrange(0, q as int),
                decreases t@.len() - q,
            {
                out.push(t[q]);
                proof {
                    assert(t@.subrange(0, q + 1) =~= t@.subrange(0, q as int).push(t@[q as int]));
                    assert(out@ =~= old(out)@ + t@.subrange(0, q + 1));
                }
                q = q + 1;
            }
            proof {
                assert(t@.subrange(0, t@.len() as int) =~= t@);
            }
        },
        Json::Str(s) => {
            encode_str_into(s, out);
        },
        Json::Arr(v) => {
            out.push(0x5b);
            let mut k: usize = 0;
            while k < v.len()
                invariant
                    k <= v@.len(),
                    out@ == old(out)@ + seq![0x5bu8] + enc_list(
                        json_list_model(v@.subrange(0, k as int)),
                    ),
                decreases v@.len() - k,
            {
                if k > 0 {
                    out.push(0x2c);
                }
                let ghost pre_models = json_list_model(v@.subrange(0, k as int));
                encode_json_into(&v[k], out);
                proof {
                    assert(v@.subrange(0, k + 1) =~= v@.subrange(0, k as int).push(v@[k as int]));
                    lemma_json_list_model_snoc(v@.subrange(0, k as int), v@[k as int]);
                    lemma_enc_list_snoc(pre_models, json_model(v@[k as int]));
                    assert(pre_models.len() == k) by {
                        lemma_json_list_model_len(v@.subrange(0, k as int));
                    }
                    assert(out@ =~= old(out)@ + seq![0x5bu8] + enc_list(
                        json_list_model(v@.subrange(0, k + 1)),
                    ));
                }
                k = k + 1;
            }
            out.push(0x5d);
            proof {
                assert(v@.subrange(0, v@.len() as int) =~= v@);
                assert(out@ =~= old(out)@ + enc_json(json_model(*j)));
            }
        },
        Json::Obj(v) => {
            out.push(0x7b);
            let mut k: usize = 0;
            while k < v.len()
                invariant
                    k <= v@.len(),
                    out@ == old(out)@ + seq![0x7bu8] + enc_pairs(
                        json_pairs_model(v@.subrange(0, k as int)),
                    ),
                decreases v@.len() - k,
            {
                if k > 0 {
                    out.push(0x2c);
                }
                let ghost pre_models = json_pairs_model(v@.subrange(0, k as int));
                let pair = &v[k];
                encode_str_into(&pair.0, out);
                out.push(0x3a);
                encode_json_into(&pair.1, out);
                proof {
                    assert(v@.subrange(0, k + 1) =~= v@.subrange(0, k as int).push(v@[k as int]));
                    lemma_json_pairs_model_snoc(v@.subrange(0, k as int), v@[k as int]);
                    lemma_enc_pairs_snoc(
                        pre_models,
                        (v@[k as int].0@, json_model(v@[k as int].1)),
                    );
                    assert(pre_models.len() == k) by {
                        lemma_json_pairs_model_len(v@.subrange(0, k as int));
                    }
                    assert(out@ =~= old(out)@ + seq![0x7bu8] + enc_pairs(
                        json_pairs_model(v@.subrange(0, k + 1)),
                    ));
                }
                k = k + 1;
            }
            out.push(0x7d);
            proof {
                assert(v@.subrange(0, v@.len() as int) =~= v@);
                assert(out@ =~= old(out)@ + enc_json(json_model(*j)));
            }
        },
    }
}

/// An array's abstract value has one entry per element.
pub proof fn lemma_json_list_model_len(s: Seq<Json>)
    ensures
        json_list_model(s).len() == s.len(),
    decreases s.len(),
{
    if s.len() > 0 {
        lemma_json_list_model_len(s.subrange(1, s.len() as int));
    }
}

/// An object's abstract value has one entry per member.
pub proof fn lemma_json_pairs_model_len(s: Seq<(Vec<u8>, Json)>)
    ensures
        json_pairs_model(s).len() == s.len(),
    decreases s.len(),
{
    if s.len() > 0 {
        lemma_json_pairs_model_len(s.subrange(1, s.len() as int));
    }
}

/// Append the decimal digits of a 32-bit number.
fn push_u32(n: u32, out: &mut Vec<u8>)
    ensures
        final(out)@ == old(out)@ + dec_digits(n as nat),
    decreases n,
{
    if n < 10 {
        out.push(0x30 + n as u8);
        proof {
            assert(out@ =~= old(out)@ + dec_digits(n as nat));
        }
    } else {
        push_u32(n / 10, out);
        out.push(0x30 + (n % 10) as u8);
        proof {
            assert(out@ =~= old(out)@ + dec_digits(n as nat));
        }
    }
}

/// Append the quoted name of a severity level.
fn encode_level_into(l: Level, out: &mut Vec<u8>)
    ensures
        final(out)@ == old(out)@ + enc_str(level_text(l)),
{
    out.push(0x22);
    match l {
        Level::Error => {
            out.push(0x45);
            out.push(0x72);
            out.push(0x72);
            out.push(0x6f);
            out.push(0x72);
        },
        Level::Warn => {
            out.push(0x57);
            out.push(0x61);
            out.push(0x72);
            out.push(0x6e);
        },
        Level::Info => {
            out.push(0x49);
            out.push(0x6e);
            out.push(0x66);
            out.push(0x6f);
        },
        Level::Debug => {
            out.push(0x44);
            out.push(0x65);
            out.push(0x62);
            out.push(0x75);
            out.push(0x67);
        },
        Level::Trace => {
            out.push(0x54);
            out.push(0x72);
            out.push(0x61);
            out.push(0x63);
            out.push(0x65);
        },
    }
    out.push(0x22);
    proof {
        lemma_level_text_plain(l);
        lemma_enc_bytes_plain(level_text(l));
        assert(out@ =~= old(out)@ + enc_str(level_text(l)));
    }
}

/// Level names need no escaping.
pub proof fn lemma_level_text_plain(l: Level)
    ensures
        forall|i: int| 0 <= i < level_text(l).len() ==> !needs_escape(#[trigger] level_text(l)[i]),
{
}

/// Append `{"value":`.
fn push_lit_value(out: &mut Vec<u8>)
    ensures
        final(out)@ == old(out)@ + lit_value(),
{
    out.push(0x7b);
    out.push(0x22);
    out.push(0x76);
    out.push(0x61);
    out.push(0x6c);
    out.push(0x75);
    out.push(0x65);
    out.push(0x22);
    out.push(0x3a);
    proof {
        assert(out@ =~= old(out)@ + lit_value());
    }
}

/// Append `,"message":`.
fn push_lit_message(out: &mut Vec<u8>)
    ensures
        final(out)@ == old(out)@ + lit_message(),
{
    out.push(0x2c);
    out.push(0x22);
    out.push(0x6d);
    out.push(0x65);
    out.push(0x73);
    out.push(0x73);
    out.push(0x61);
    out.push(0x67);
    out.push(0x65);
    out.push(0x22);
    out.push(0x3a);
    proof {
        assert(out@ =~= old(out)@ + lit_message());
    }
}

/// Append `,"level":`.
fn push_lit_level(out: &mut Vec<u8>)
    ensures
        final(out)@ == old(out)@ + lit_level(),
{
    out.push(0x2c);
    out.push(0x22);
    out.push(0x6c);
    out.push(0x65);
    out.push(0x76);
    out.push(0x65);
    out.push(0x6c);
    out.push(0x22);
    out.push(0x3a);
    proof {
        assert(out@ =~= old(out)@ + lit_level());
    }
}

/// Append `,"file":`.
fn push_lit_file(out: &mut Vec<u8>)
    ensures
        final(out)@ == old(out)@ + lit_file(),
{
    out.push(0x2c);
    out.push(0x22);
    out.push(0x66);
    out.push(0x69);
    out.push(0x6c);
    out.push(0x65);
    out.push(0x22);
    out.push(0x3a);
    proof {
        assert(out@ =~= old(out)@ + lit_file());
    }
}

/// Append `,"module":`.
fn push_lit_module(out: &mut Vec<u8>)
    ensures
        final(out)@ == old(out)@ + lit_module(),
{
    out.push(0x2c);
    out.push(0x22);
    out.push(0x6d);
    out.push(0x6f);
    out.push(0x64);
    out.push(0x75);
    out.push(0x6c);
    out.push(0x65);
    out.push(0x22);
    out.push(0x3a);
    proof {
        assert(out@ =~= old(out)@ + lit_module());
    }
}

/// Append `,"line":`.
fn push_lit_line(out: &mut Vec<u8>)
    ensures
        final(out)@ == old(out)@ + lit_line(),
{
    out.push(0x2c);
    out.push(0x22);
    out.push(0x6c);
    out.push(0x69);
    out.push(0x6e);
    out.push(0x65);
    out.push(0x22);
    out.push(0x3a);
    proof {
        assert(out@ =~= old(out)@ + lit_line());
    }
}

/// Append an optional string field: `null` or the quoted string.
fn encode_opt_str_into(v: &Option<Vec<u8>>, out: &mut Vec<u8>)
    ensures
        final(out)@ == old(out)@ + enc_opt_str(
            match v {
                Option::Some(c) => Option::Some(c@),
                Option::None => Option::None,
            },
        ),
{
    match v {
        Option::Some(c) => encode_str_into(c, out),
        Option::None => push_null(out),
    }
}

/// Encode a record to its wire message: the canonical JSON line
/// described at the top of this module. Encoding is deterministic and
/// total: every record has exactly one wire form.
pub fn encode(r: &Record) -> (w: Vec<u8>)
    ensures
        w@ == enc_record(record_model(*r)),
{
    let mut out: Vec<u8> = Vec::new();
    push_lit_value(&mut out);
    match &r.value {
        Option::Some(j) => encode_json_into(j, &mut out),
        Option::None => push_null(&mut out),
    }
    push_lit_message(&mut out);
    encode_str_into(&r.message, &mut out);
    push_lit_level(&mut out);
    encode_level_into(r.level, &mut out);
    push_lit_file(&mut out);
    encode_opt_str_into(&r.file, &mut out);
    push_lit_module(&mut out);
    encode_opt_str_into(&r.module, &mut out);
    push_lit_line(&mut out);
    match r.line {
        Option::Some(n) => push_u32(n, &mut out),
        Option::None => push_null(&mut out),
    }
    out.push(0x7d);
    proof {
        assert(out@ =~= enc_record(record_model(*r)));
    }
    out
}

/// `e` occurs verbatim at position `i` of `s`.
pub open spec fn enc_at(s: Seq<u8>, i: int, e: Seq<u8>) -> bool {
    &&& 0 <= i
    &&& i + e.len() <= s.len()
    &&& s.subrange(i, i + e.len()) == e
}

/// Where encoded string content meets a closing quote, the content is
/// over.
proof fn lemma_quote_at(s: Seq<u8>, idx: int, rest: Seq<u8>)
    requires
        enc_at(s, idx, enc_bytes(rest) + seq![0x22u8]),
        idx < s.len(),
        s[idx] == 0x22u8,
    ensures
        rest.len() == 0,
{
    if rest.len() > 0 {
        assert((enc_bytes(rest) + seq![0x22u8])[0] == esc(rest[0])[0]);
        assert(s[idx] == esc(rest[0])[0]);
        if needs_escape(rest[0]) {
            assert(esc(rest[0])[0] == 0x5cu8);
        } else {
            assert(esc(rest[0])[0] == rest[0]);
        }
        assert(false);
    }
}

/// Where encoded string content starts with a backslash, the next six
/// bytes are the canonical escape of the first content byte.
proof fn lemma_escape_at(s: Seq<u8>, idx: int, rest: Seq<u8>)
    requires
        enc_at(s, idx, enc_bytes(rest) + seq![0x22u8]),
        idx < s.len(),
        s[idx] == 0x5cu8,
    ensures
        rest.len() >= 1,
        needs_escape(rest[0]),
        idx + 6 < s.len(),
        s[idx + 1] == 0x75u8,
        s[idx + 2] == 0x30u8,
        s[idx + 3] == 0x30u8,
        s[idx + 4] == hex_digit(rest[0] / 16),
        s[idx + 5] == hex_digit(rest[0] % 16),
        is_hex_digit(s[idx + 4]),
        is_hex_digit(s[idx + 5]),
        hex_val(s[idx + 4]) * 16 + hex_val(s[idx + 5]) == rest[0],
        enc_at(s, idx + 6, enc_bytes(rest.subrange(1, rest.len() as int)) + seq![0x22u8]),
    decreases 0int,
{
    let e = enc_bytes(rest) + seq![0x22u8];
    if rest.len() == 0 {
        assert(s[idx] == e[0]);
        assert(false);
    }
    let b = rest[0];
    let rest1 = rest.subrange(1, rest.len() as int);
    assert(enc_bytes(rest) == esc(b) + enc_bytes(rest1));
    if !needs_escape(b) {
        assert(e[0] == b);
        assert(b != 0x5cu8);
        assert(false);
    }
    assert(e[0] == esc(b)[0] && e[1] == esc(b)[1] && e[2] == esc(b)[2] && e[3] == esc(b)[3] && e[4]
        == esc(b)[4] && e[5] == esc(b)[5]);
    assert forall|k: int| 0 <= k < 6 implies s[idx + k] == esc(b)[k] by {
        assert(s[idx + k] == e[k]);
    }
    lemma_hex(b / 16);
    lemma_hex(b % 16);
    assert(b == (b / 16) * 16 + b % 16) by (nonlinear_arith);
    let tail = enc_bytes(rest1) + seq![0x22u8];
    assert(e =~= esc(b) + tail);
    assert forall|k: int| 0 <= k < tail.len() implies s[idx + 6 + k] == tail[k] by {
        assert(e[6 + k] == tail[k]);
        assert(s.subrange(idx, idx + e.len() as int)[6 + k] == s[idx + 6 + k]);
    }
    assert(s.subrange(idx + 6, idx + 6 + tail.len() as int) =~= tail);
}

/// Where encoded string content starts with an ordinary byte, that
/// byte is the first content byte carried verbatim.
proof fn lemma_verbatim_at(s: Seq<u8>, idx: int, rest: Seq<u8>)
    requires
        enc_at(s, idx, enc_bytes(rest) + seq![0x22u8]),
        idx < s.len(),
        s[idx] != 0x22u8,
        s[idx] != 0x5cu8,
    ensures
        rest.len() >= 1,
        !needs_escape(rest[0]),
        rest[0] == s[idx],
        s[idx] >= 0x20,
        enc_at(s, idx + 1, enc_bytes(rest.subrange(1, rest.len() as int)) + seq![0x22u8]),
{
    let e = enc_bytes(rest) + seq![0x22u8];
    if rest.len() == 0 {
        assert(s[idx] == e[0]);
        assert(false);
    }
    let b = rest[0];
    let rest1 = rest.subrange(1, rest.len() as int);
    assert(enc_bytes(rest) == esc(b) + enc_bytes(rest1));
    if needs_escape(b) {
        assert(e[0] == 0x5cu8);
        assert(s[idx] == e[0]);
        assert(false);
    }
    assert(s[idx] == e[0]);
    assert(e[0] == b);
    let tail = enc_bytes(rest1) + seq![0x22u8];
    assert(e =~= esc(b) + tail);
    assert forall|k: int| 0 <= k < tail.len() implies s[idx + 1 + k] == tail[k] by {
        assert(e[1 + k] == tail[k]);
        assert(s.subrange(idx, idx + e.len() as int)[1 + k] == s[idx + 1 + k]);
    }
    assert(s.subrange(idx + 1, idx + 1 + tail.len() as int) =~= tail);
}

/// The value of a lowercase hex digit byte.
fn hex_val_e(c: u8) -> (r: u8)
    requires
        is_hex_digit(c),
    ensures
        r == hex_val(c),
        r < 16,
{
    if c <= 0x39 {
        c - 0x30
    } else {
        c - 0x57
    }
}



/// The canonical escape of the byte named by two lowercase hex digits.
proof fn lemma_esc_of_hex(h1: u8, h2: u8, v: u8)
    requires
        is_hex_digit(h1),
        is_hex_digit(h2),
        v == hex_val(h1) * 16 + hex_val(h2),
        needs_escape(v),
    ensures
        esc(v) == seq![0x5cu8, 0x75u8, 0x30u8, 0x30u8, h1, h2],
{
    assert(v / 16 == hex_val(h1) && v % 16 == hex_val(h2)) by (nonlinear_arith)
        requires
            v == hex_val(h1) * 16 + hex_val(h2) && hex_val(h1) < 16 && hex_val(h2) < 16,
    ;
    lemma_hex(hex_val(h1));
    lemma_hex(hex_val(h2));
    assert(hex_digit(hex_val(h1)) == h1);
    assert(hex_digit(hex_val(h2)) == h2);
    assert(esc(v) =~= seq![0x5cu8, 0x75u8, 0x30u8, 0x30u8, h1, h2]);
}

/// Step facts for the string-content parser: closing quote seen.
proof fn lemma_sb_quote(s: Seq<u8>, i: int, idx: int, acc: Seq<u8>)
    requires
        0 <= i <= idx <= s.len(),
        idx < s.len(),
        s[idx] == 0x22u8,
        s.subrange(i, idx) == enc_bytes(acc),
        forall|c2: Seq<u8>| #![trigger enc_bytes(c2)]
            enc_at(s, i, enc_bytes(c2) + seq![0x22u8]) ==> {
                &&& acc.len() <= c2.len()
                &&& c2.subrange(0, acc.len() as int) == acc
                &&& enc_at(
                    s,
                    idx,
                    enc_bytes(c2.subrange(acc.len() as int, c2.len() as int)) + seq![0x22u8],
                )
            },
    ensures
        forall|c2: Seq<u8>| #![trigger enc_bytes(c2)]
            enc_at(s, i, enc_bytes(c2) + seq![0x22u8]) ==> (c2 == acc && idx + 1 == i + enc_bytes(
                c2,
            ).len() + 1),
{
    assert forall|c2: Seq<u8>| #![trigger enc_bytes(c2)]
        enc_at(s, i, enc_bytes(c2) + seq![0x22u8]) implies (c2 == acc && idx + 1 == i + enc_bytes(
        c2,
    ).len() + 1) by {
        let rest = c2.subrange(acc.len() as int, c2.len() as int);
        lemma_quote_at(s, idx, rest);
        assert(c2 =~= acc);
    }
}

/// Step facts for the string-content parser: a valid escape consumed.
proof fn lemma_sb_escape_ok(s: Seq<u8>, i: int, idx: int, acc: Seq<u8>, v: u8)
    requires
        0 <= i <= idx <= s.len(),
        idx < s.len(),
        s[idx] == 0x5cu8,
        idx + 6 <= s.len(),
        is_hex_digit(s[idx + 4]),
        is_hex_digit(s[idx + 5]),
        v == hex_val(s[idx + 4]) * 16 + hex_val(s[idx + 5]),
        forall|c2: Seq<u8>| #![trigger enc_bytes(c2)]
            enc_at(s, i, enc_bytes(c2) + seq![0x22u8]) ==> {
                &&& acc.len() <= c2.len()
                &&& c2.subrange(0, acc.len() as int) == acc
                &&& enc_at(
                    s,
                    idx,
                    enc_bytes(c2.subrange(acc.len() as int, c2.len() as int)) + seq![0x22u8],
                )
            },
    ensures
        forall|c2: Seq<u8>| #![trigger enc_bytes(c2)]
            enc_at(s, i, enc_bytes(c2) + seq![0x22u8]) ==> {
                &&& acc.push(v).len() <= c2.len()
                &&& c2.subrange(0, acc.push(v).len() as int) == acc.push(v)
                &&& enc_at(
                    s,
                    idx + 6,
                    enc_bytes(c2.subrange(acc.push(v).len() as int, c2.len() as int))
                        + seq![0x22u8],
                )
            },
{
    assert forall|c2: Seq<u8>| #![trigger enc_bytes(c2)]
        enc_at(s, i, enc_bytes(c2) + seq![0x22u8]) implies {
        &&& acc.push(v).len() <= c2.len()
        &&& c2.subrange(0, acc.push(v).len() as int) == acc.push(v)
        &&& enc_at(
            s,
            idx + 6,
            enc_bytes(c2.subrange(acc.push(v).len() as int, c2.len() as int)) + seq![0x22u8],
        )
    } by {
        let rest = c2.subrange(acc.len() as int, c2.len() as int);
        lemma_escape_at(s, idx, rest);
        assert(rest[0] == v);
        assert(c2.subrange(0, acc.push(v).len() as int) =~= acc.push(v));
        assert(rest.subrange(1, rest.len() as int) =~= c2.subrange(
            acc.push(v).len() as int,
            c2.len() as int,
        ));
    }
}

/// Step facts for the string-content parser: a malformed escape.
proof fn lemma_sb_escape_bad(s: Seq<u8>, i: int, idx: int, acc: Seq<u8>)
    requires
        0 <= i <= idx <= s.len(),
        idx < s.len(),
        s[idx] == 0x5cu8,
        !(idx + 6 <= s.len() && s[idx + 1] == 0x75u8 && s[idx + 2] == 0x30u8 && s[idx + 3]
            == 0x30u8 && is_hex_digit(s[idx + 4]) && is_hex_digit(s[idx + 5]) && needs_escape(
            (hex_val(s[idx + 4]) * 16 + hex_val(s[idx + 5])) as u8,
        )),
        forall|c2: Seq<u8>| #![trigger enc_bytes(c2)]
            enc_at(s, i, enc_bytes(c2) + seq![0x22u8]) ==> {
                &&& acc.len() <= c2.len()
                &&& c2.subrange(0, acc.len() as int) == acc
                &&& enc_at(
                    s,
                    idx,
                    enc_bytes(c2.subrange(acc.len() as int, c2.len() as int)) + seq![0x22u8],
                )
            },
    ensures
        forall|c2: Seq<u8>| #![trigger enc_bytes(c2)] !enc_at(s, i, enc_bytes(c2) + seq![0x22u8]),
{
    assert forall|c2: Seq<u8>| #![trigger enc_bytes(c2)]
        !enc_at(s, i, enc_bytes(c2) + seq![0x22u8]) by {
        if enc_at(s, i, enc_bytes(c2) + seq![0x22u8]) {
            let rest = c2.subrange(acc.len() as int, c2.len() as int);
            lemma_escape_at(s, idx, rest);
            assert(hex_val(s[idx + 4]) * 16 + hex_val(s[idx + 5]) == rest[0]);
            assert(needs_escape(rest[0]));
            assert(false);
        }
    }
}

/// Step facts for the string-content parser: a verbatim byte consumed.
proof fn lemma_sb_verbatim_ok(s: Seq<u8>, i: int, idx: int, acc: Seq<u8>, v: u8)
    requires
        0 <= i <= idx <= s.len(),
        idx < s.len(),
        s[idx] == v,
        v != 0x22u8,
        v != 0x5cu8,
        v >= 0x20,
        forall|c2: Seq<u8>| #![trigger enc_bytes(c2)]
            enc_at(s, i, enc_bytes(c2) + seq![0x22u8]) ==> {
                &&& acc.len() <= c2.len()
                &&& c2.subrange(0, acc.len() as int) == acc
                &&& enc_at(
                    s,
                    idx,
                    enc_bytes(c2.subrange(acc.len() as int, c2.len() as int)) + seq![0x22u8],
                )
            },
    ensures
        forall|c2: Seq<u8>| #![trigger enc_bytes(c2)]
            enc_at(s, i, enc_bytes(c2) + seq![0x22u8]) ==> {
                &&& acc.push(v).len() <= c2.len()
                &&& c2.subrange(0, acc.push(v).len() as int) == acc.push(v)
                &&& enc_at(
                    s,
                    idx + 1,
                    enc_bytes(c2.subrange(acc.push(v).len() as int, c2.len() as int))
                        + seq![0x22u8],
                )
            },
{
    assert forall|c2: Seq<u8>| #![trigger enc_bytes(c2)]
        enc_at(s, i, enc_bytes(c2) + seq![0x22u8]) implies {
        &&& acc.push(v).len() <= c2.len()
        &&& c2.subrange(0, acc.push(v).len() as int) == acc.push(v)
        &&& enc_at(
            s,
            idx + 1,
            enc_bytes(c2.subrange(acc.push(v).len() as int, c2.len() as int)) + seq![0x22u8],
        )
    } by {
        let rest = c2.subrange(acc.len() as int, c2.len() as int);
        lemma_verbatim_at(s, idx, rest);
        assert(c2.subrange(0, acc.push(v).len() as int) =~= acc.push(v));
        assert(rest.subrange(1, rest.len() as int) =~= c2.subrange(
            acc.push(v).len() as int,
            c2.len() as int,
        ));
    }
}

/// Step facts for the string-content parser: a bare control byte.
proof fn lemma_sb_ctrl(s: Seq<u8>, i: int, idx: int, acc: Seq<u8>)
    requires
        0 <= i <= idx <= s.len(),
        idx < s.len(),
        s[idx] != 0x22u8,
        s[idx] != 0x5cu8,
        s[idx] < 0x20,
        forall|c2: Seq<u8>| #![trigger enc_bytes(c2)]
            enc_at(s, i, enc_bytes(c2) + seq![0x22u8]) ==> {
                &&& acc.len() <= c2.len()
                &&& c2.subrange(0, acc.len() as int) == acc
                &&& enc_at(
                    s,
                    idx,
                    enc_bytes(c2.subrange(acc.len() as int, c2.len() as int)) + seq![0x22u8],
                )
            },
    ensures
        forall|c2: Seq<u8>| #![trigger enc_bytes(c2)] !enc_at(s, i, enc_bytes(c2) + seq![0x22u8]),
{
    assert forall|c2: Seq<u8>| #![trigger enc_bytes(c2)]
        !enc_at(s, i, enc_bytes(c2) + seq![0x22u8]) by {
        if enc_at(s, i, enc_bytes(c2) + seq![0x22u8]) {
            let rest = c2.subrange(acc.len() as int, c2.len() as int);
            lemma_verbatim_at(s, idx, rest);
            assert(false);
        }
    }
}

/// Step facts for the string-content parser: input ended unterminated.
proof fn lemma_sb_end(s: Seq<u8>, i: int, idx: int, acc: Seq<u8>)
    requires
        0 <= i <= idx <= s.len(),
        idx == s.len(),
        forall|c2: Seq<u8>| #![trigger enc_bytes(c2)]
            enc_at(s, i, enc_bytes(c2) + seq![0x22u8]) ==> {
                &&& acc.len() <= c2.len()
                &&& c2.subrange(0, acc.len() as int) == acc
                &&& enc_at(
                    s,
                    idx,
                    enc_bytes(c2.subrange(acc.len() as int, c2.len() as int)) + seq![0x22u8],
                )
            },
    ensures
        forall|c2: Seq<u8>| #![trigger enc_bytes(c2)] !enc_at(s, i, enc_bytes(c2) + seq![0x22u8]),
{
    assert forall|c2: Seq<u8>| #![trigger enc_bytes(c2)]
        !enc_at(s, i, enc_bytes(c2) + seq![0x22u8]) by {
        if enc_at(s, i, enc_bytes(c2) + seq![0x22u8]) {
            let rest = c2.subrange(acc.len() as int, c2.len() as int);
            let e = enc_bytes(rest) + seq![0x22u8];
            assert(e.len() >= 1);
            assert(idx + e.len() <= s.len());
            assert(false);
        }
    }
}

/// Parse escaped string content starting just after the opening quote,
/// up to and including the closing quote. Returns the unescaped
/// content and the position just past the closing quote.
///
/// On success the consumed bytes are exactly the canonical encoding of
/// the returned content; and whenever canonical string content lies at
/// `i`, parsing succeeds and returns exactly that content.
#[verifier::loop_isolation(false)]
#[verifier::rlimit(100)]
fn parse_string_body(s: &Vec<u8>, i: usize) -> (r: Option<(Vec<u8>, usize)>)
    requires
        i <= s@.len(),
    ensures
        match r {
            Option::Some((c, n)) => {
                &&& i < n <= s@.len()
                &&& s@.subrange(i as int, n as int) == enc_bytes(c@) + seq![0x22u8]
            },
            Option::None => true,
        },
        forall|c2: Seq<u8>| #![trigger enc_bytes(c2)]
            enc_at(s@, i as int, enc_bytes(c2) + seq![0x22u8]) ==> (r matches Option::Some((c, n))
                && c@ == c2 && n == i + enc_bytes(c2).len() + 1),
{
    let mut acc: Vec<u8> = Vec::new();
    let mut idx: usize = i;
    proof {
        assert(s@.subrange(i as int, i as int) =~= Seq::<u8>::empty());
        assert(enc_bytes(acc@) =~= Seq::<u8>::empty());
        assert forall|c2: Seq<u8>| #![trigger enc_bytes(c2)]
            enc_at(s@, i as int, enc_bytes(c2) + seq![0x22u8]) implies {
            &&& acc@.len() <= c2.len()
            &&& c2.subrange(0, acc@.len() as int) == acc@
            &&& enc_at(
                s@,
                i as int,
                enc_bytes(c2.subrange(acc@.len() as int, c2.len() as int)) + seq![0x22u8],
            )
        } by {
            assert(c2.subrange(0, 0) =~= Seq::<u8>::empty());
            assert(c2.subrange(0, c2.len() as int) =~= c2);
        }
    }
    while idx < s.len()
        invariant
            i <= idx <= s@.len(),
            s@.subrange(i as int, idx as int) == enc_bytes(acc@),
            forall|c2: Seq<u8>| #![trigger enc_bytes(c2)]
                enc_at(s@, i as int, enc_bytes(c2) + seq![0x22u8]) ==> {
                    &&& acc@.len() <= c2.len()
                    &&& c2.subrange(0, acc@.len() as int) == acc@
                    &&& enc_at(
                        s@,
                        idx as int,
                        enc_bytes(c2.subrange(acc@.len() as int, c2.len() as int)) + seq![0x22u8],
                    )
                },
        decreases s@.len() - idx,
    {
        let b = s[idx];
        if b == 0x22 {
            proof {
                lemma_sb_quote(s@, i as int, idx as int, acc@);
            }
            return Option::Some((acc, idx + 1));
        } else if b == 0x5c {
            if s.len() - idx >= 6 && s[idx + 1] == 0x75 && s[idx + 2] == 0x30 && s[idx + 3] == 0x30
                && ((0x30 <= s[idx + 4] && s[idx + 4] <= 0x39) || (0x61 <= s[idx + 4] && s[idx + 4]
                <= 0x66)) && ((0x30 <= s[idx + 5] && s[idx + 5] <= 0x39) || (0x61 <= s[idx + 5]
                && s[idx + 5] <= 0x66)) {
                let v = hex_val_e(s[idx + 4]) * 16 + hex_val_e(s[idx + 5]);
                if v < 0x20 || v == 0x22 || v == 0x5c {
                    let ghost old_acc = acc@;
                    proof {
                        lemma_sb_escape_ok(s@, i as int, idx as int, old_acc, v);
                        lemma_esc_of_hex(s@[idx + 4], s@[idx + 5], v);
                        lemma_enc_bytes_snoc(old_acc, v);
                        assert(esc(v) =~= s@.subrange(idx as int, idx + 6));
                        assert(s@.subrange(i as int, idx + 6) =~= enc_bytes(old_acc) + esc(v)) by {
                            assert forall|q: int|
                                0 <= q < idx - i implies s@.subrange(i as int, idx + 6)[q]
                                == enc_bytes(old_acc)[q] by {
                                assert(s@.subrange(i as int, idx as int)[q] == s@[i + q]);
                                assert(s@.subrange(i as int, idx + 6)[q] == s@[i + q]);
                            }
                        }
                    }
                    acc.push(v);
                    idx = idx + 6;
                } else {
                    proof {
                        lemma_sb_escape_bad(s@, i as int, idx as int, acc@);
                    }
                    return Option::None;
                }
            } else {
                proof {
                    lemma_sb_escape_bad(s@, i as int, idx as int, acc@);
                }
                return Option::None;
            }
        } else if b >= 0x20 {
            let ghost old_acc = acc@;
            proof {
                lemma_sb_verbatim_ok(s@, i as int, idx as int, old_acc, b);
                lemma_enc_bytes_snoc(old_acc, b);
                assert(esc(b) =~= s@.subrange(idx as int, idx + 1));
                assert(s@.subrange(i as int, idx + 1) =~= enc_bytes(old_acc) + esc(b)) by {
                    assert forall|q: int|
                        0 <= q < idx - i implies s@.subrange(i as int, idx + 1)[q] == enc_bytes(
                        old_acc,
                    )[q] by {
                        assert(s@.subrange(i as int, idx as int)[q] == s@[i + q]);
                        assert(s@.subrange(i as int, idx + 1)[q] == s@[i + q]);
                    }
                }
            }
            acc.push(b);
            idx = idx + 1;
        } else {
            proof {
                lemma_sb_ctrl(s@, i as int, idx as int, acc@);
            }
            return Option::None;
        }
    }
    proof {
        lemma_sb_end(s@, i as int, idx as int, acc@);
    }
    Option::None
}

/// A prefix and a suffix of an occurrence occur at their positions.
proof fn lemma_enc_at_split(s: Seq<u8>, idx: int, a: Seq<u8>, b: Seq<u8>)
    requires
        enc_at(s, idx, a + b),
    ensures
        enc_at(s, idx, a),
        enc_at(s, idx + a.len(), b),
{
    let e = a + b;
    assert forall|k: int| 0 <= k < a.len() implies s.subrange(idx, idx + a.len() as int)[k]
        == a[k] by {
        assert(s.subrange(idx, idx + e.len() as int)[k] == s[idx + k]);
        assert(s.subrange(idx, idx + a.len() as int)[k] == s[idx + k]);
    }
    assert(s.subrange(idx, idx + a.len() as int) =~= a);
    assert forall|k: int|
        0 <= k < b.len() implies s.subrange(idx + a.len(), idx + a.len() + b.len() as int)[k]
        == b[k] by {
        assert(s.subrange(idx, idx + e.len() as int)[a.len() + k] == s[idx + a.len() + k]);
        assert(e[a.len() + k] == b[k]);
        assert(s.subrange(idx + a.len(), idx + a.len() + b.len() as int)[k] == s[idx + a.len()
            + k]);
    }
    assert(s.subrange(idx + a.len(), idx + a.len() + b.len() as int) =~= b);
}

/// Adjacent occurrences join into one.
proof fn lemma_enc_at_join(s: Seq<u8>, idx: int, a: Seq<u8>, b: Seq<u8>)
    requires
        enc_at(s, idx, a),
        enc_at(s, idx + a.len(), b),
    ensures
        enc_at(s, idx, a + b),
{
    assert forall|k: int| 0 <= k < a.len() implies s[idx + k] == a[k] by {
        assert(s.subrange(idx, idx + a.len() as int)[k] == s[idx + k]);
    }
    assert forall|k: int| 0 <= k < b.len() implies s[idx + a.len() + k] == b[k] by {
        assert(s.subrange(idx + a.len(), idx + a.len() + b.len() as int)[k] == s[idx + a.len()
            + k]);
    }
    assert(s.subrange(idx, idx + (a + b).len() as int) =~= a + b);
}

/// Every element of a well-formed element sequence is well formed.
proof fn lemma_json_list_wf_index(s: Seq<JsonView>, i: int)
    requires
        json_list_wf(s),
        0 <= i < s.len(),
    ensures
        json_wf(s[i]),
    decreases s.len(),
{
    if i > 0 {
        lemma_json_list_wf_index(s.subrange(1, s.len() as int), i - 1);
    }
}

/// The tail of a well-formed element sequence is well formed.
proof fn lemma_json_list_wf_skip(s: Seq<JsonView>, k: int)
    requires
        json_list_wf(s),
        0 <= k <= s.len(),
    ensures
        json_list_wf(s.subrange(k, s.len() as int)),
    decreases k,
{
    if k == 0 {
        assert(s.subrange(0, s.len() as int) =~= s);
    } else {
        lemma_json_list_wf_skip(s.subrange(1, s.len() as int), k - 1);
        assert(s.subrange(1, s.len() as int).subrange(k - 1, s.len() - 1) =~= s.subrange(
            k,
            s.len() as int,
        ));
    }
}

/// The value of every member of a well-formed member sequence is well
/// formed.
proof fn lemma_json_pairs_wf_index(s: Seq<(Seq<u8>, JsonView)>, i: int)
    requires
        json_pairs_wf(s),
        0 <= i < s.len(),
    ensures
        json_wf(s[i].1),
    decreases s.len(),
{
    if i > 0 {
        lemma_json_pairs_wf_index(s.subrange(1, s.len() as int), i - 1);
    }
}

/// The elements of an array value, empty for any other value.
pub open spec fn arr_elems(m: JsonView) -> Seq<JsonView> {
    match m {
        JsonView::Arr(e) => e,
        _ => Seq::empty(),
    }
}

/// The members of an object value, empty for any other value.
pub open spec fn obj_members(m: JsonView) -> Seq<(Seq<u8>, JsonView)> {
    match m {
        JsonView::Obj(e) => e,
        _ => Seq::empty(),
    }
}

/// A canonical value encoding sits at `i`, and where the value is a
/// number the byte after it cannot extend the number.
pub open spec fn value_at(s: Seq<u8>, i: int, m: JsonView) -> bool {
    &&& json_wf(m)
    &&& enc_at(s, i, enc_json(m))
    &&& (m is Num ==> (i + enc_json(m).len() == s.len() || !is_number_byte(
        s[i + enc_json(m).len()],
    )))
}

/// A canonical member encoding sits at `i`, with the same follow
/// condition for a number value.
pub open spec fn member_at(s: Seq<u8>, i: int, kv: (Seq<u8>, JsonView)) -> bool {
    &&& json_wf(kv.1)
    &&& enc_at(s, i, enc_member(kv))
    &&& (kv.1 is Num ==> (i + enc_member(kv).len() == s.len() || !is_number_byte(
        s[i + enc_member(kv).len()],
    )))
}

/// At the head of an encoded element rest-list with its closing
/// bracket: a closing bracket means the list is over, anything else
/// means a comma introduces the next element.
proof fn lemma_list_sep_at(s: Seq<u8>, idx: int, elems: Seq<JsonView>)
    requires
        enc_at(s, idx, enc_list_sep(elems) + seq![0x5du8]),
        json_list_wf(elems),
        idx < s.len(),
    ensures
        elems.len() == 0 ==> s[idx] == 0x5du8,
        elems.len() >= 1 ==> s[idx] == 0x2cu8,
        elems.len() >= 1 ==> value_at(s, idx + 1, elems[0]),
        elems.len() >= 1 ==> enc_at(
            s,
            idx + 1 + enc_json(elems[0]).len(),
            enc_list_sep(elems.subrange(1, elems.len() as int)) + seq![0x5du8],
        ),
{
    if elems.len() == 0 {
        assert(enc_list_sep(elems) + seq![0x5du8] =~= seq![0x5du8]);
        assert(s.subrange(idx, idx + 1)[0] == s[idx]);
    } else {
        let e0 = elems[0];
        let rest = elems.subrange(1, elems.len() as int);
        lemma_json_list_wf_index(elems, 0);
        lemma_json_list_wf_skip(elems, 1);
        assert(enc_list_sep(elems) + seq![0x5du8] =~= seq![0x2cu8] + (enc_json(e0) + (enc_list_sep(
            rest,
        ) + seq![0x5du8])));
        lemma_enc_at_split(
            s,
            idx,
            seq![0x2cu8],
            enc_json(e0) + (enc_list_sep(rest) + seq![0x5du8]),
        );
        assert(s.subrange(idx, idx + 1)[0] == s[idx]);
        lemma_enc_at_split(s, idx + 1, enc_json(e0), enc_list_sep(rest) + seq![0x5du8]);
        if e0 is Num {
            let q = idx + 1 + enc_json(e0).len();
            let tail = enc_list_sep(rest) + seq![0x5du8];
            assert(s.subrange(q, q + tail.len() as int)[0] == s[q]);
            if rest.len() == 0 {
                assert(tail[0] == 0x5du8);
            } else {
                assert(tail[0] == 0x2cu8);
            }
        }
    }
}

/// At the head of an encoded element list with its closing bracket.
proof fn lemma_list_at(s: Seq<u8>, idx: int, elems: Seq<JsonView>)
    requires
        enc_at(s, idx, enc_list(elems) + seq![0x5du8]),
        json_list_wf(elems),
        idx < s.len(),
    ensures
        elems.len() == 0 <==> s[idx] == 0x5du8,
        elems.len() >= 1 ==> value_at(s, idx, elems[0]),
        elems.len() >= 1 ==> enc_at(
            s,
            idx + enc_json(elems[0]).len(),
            enc_list_sep(elems.subrange(1, elems.len() as int)) + seq![0x5du8],
        ),
{
    if elems.len() == 0 {
        assert(enc_list(elems) + seq![0x5du8] =~= seq![0x5du8]);
        assert(s.subrange(idx, idx + 1)[0] == s[idx]);
    } else {
        let e0 = elems[0];
        let rest = elems.subrange(1, elems.len() as int);
        lemma_json_list_wf_index(elems, 0);
        lemma_json_list_wf_skip(elems, 1);
        assert(enc_list(elems) + seq![0x5du8] =~= enc_json(e0) + (enc_list_sep(rest)
            + seq![0x5du8]));
        lemma_enc_at_split(s, idx, enc_json(e0), enc_list_sep(rest) + seq![0x5du8]);
        lemma_enc_json_first(e0);
        assert(s.subrange(idx, idx + enc_json(e0).len() as int)[0] == s[idx]);
        if e0 is Num {
            let q = idx + enc_json(e0).len();
            let tail = enc_list_sep(rest) + seq![0x5du8];
            assert(s.subrange(q, q + tail.len() as int)[0] == s[q]);
            if rest.len() == 0 {
                assert(tail[0] == 0x5du8);
            } else {
                assert(tail[0] == 0x2cu8);
            }
        }
    }
}

/// At the head of an encoded member rest-list with its closing brace.
proof fn lemma_pairs_sep_at(s: Seq<u8>, idx: int, members: Seq<(Seq<u8>, JsonView)>)
    requires
        enc_at(s, idx, enc_pairs_sep(members) + seq![0x7du8]),
        json_pairs_wf(members),
        idx < s.len(),
    ensures
        members.len() == 0 ==> s[idx] == 0x7du8,
        members.len() >= 1 ==> s[idx] == 0x2cu8,
        members.len() >= 1 ==> member_at(s, idx + 1, members[0]),
        members.len() >= 1 ==> enc_at(
            s,
            idx + 1 + enc_member(members[0]).len(),
            enc_pairs_sep(members.subrange(1, members.len() as int)) + seq![0x7du8],
        ),
{
    if members.len() == 0 {
        assert(enc_pairs_sep(members) + seq![0x7du8] =~= seq![0x7du8]);
        assert(s.subrange(idx, idx + 1)[0] == s[idx]);
    } else {
        let kv0 = members[0];
        let rest = members.subrange(1, members.len() as int);
        lemma_json_pairs_wf_index(members, 0);
        assert(json_pairs_wf(rest));
        assert(enc_pairs_sep(members) + seq![0x7du8] =~= seq![0x2cu8] + (enc_member(kv0) + (
        enc_pairs_sep(rest) + seq![0x7du8])));
        lemma_enc_at_split(
            s,
            idx,
            seq![0x2cu8],
            enc_member(kv0) + (enc_pairs_sep(rest) + seq![0x7du8]),
        );
        assert(s.subrange(idx, idx + 1)[0] == s[idx]);
        lemma_enc_at_split(s, idx + 1, enc_member(kv0), enc_pairs_sep(rest) + seq![0x7du8]);
        if kv0.1 is Num {
            let q = idx + 1 + enc_member(kv0).len();
            let tail = enc_pairs_sep(rest) + seq![0x7du8];
            assert(s.subrange(q, q + tail.len() as int)[0] == s[q]);
            if rest.len() == 0 {
                assert(tail[0] == 0x7du8);
            } else {
                assert(tail[0] == 0x2cu8);
            }
        }
    }
}

/// At the head of an encoded member list with its closing brace.
proof fn lemma_pairs_at(s: Seq<u8>, idx: int, members: Seq<(Seq<u8>, JsonView)>)
    requires
        enc_at(s, idx, enc_pairs(members) + seq![0x7du8]),
        json_pairs_wf(members),
        idx < s.len(),
    ensures
        members.len() == 0 <==> s[idx] == 0x7du8,
        members.len() >= 1 ==> member_at(s, idx, members[0]),
        members.len() >= 1 ==> enc_at(
            s,
            idx + enc_member(members[0]).len(),
            enc_pairs_sep(members.subrange(1, members.len() as int)) + seq![0x7du8],
        ),
{
    if members.len() == 0 {
        assert(enc_pairs(members) + seq![0x7du8] =~= seq![0x7du8]);
        assert(s.subrange(idx, idx + 1)[0] == s[idx]);
    } else {
        let kv0 = members[0];
        let rest = members.subrange(1, members.len() as int);
        lemma_json_pairs_wf_index(members, 0);
        assert(json_pairs_wf(rest));
        assert(enc_pairs(members) + seq![0x7du8] =~= enc_member(kv0) + (enc_pairs_sep(rest)
            + seq![0x7du8]));
        lemma_enc_at_split(s, idx, enc_member(kv0), enc_pairs_sep(rest) + seq![0x7du8]);
        assert(enc_member(kv0) =~= seq![0x22u8] + (enc_bytes(kv0.0) + (seq![0x22u8, 0x3au8]
            + enc_json(kv0.1))));
        assert(enc_member(kv0)[0] == 0x22u8);
        assert(s.subrange(idx, idx + enc_member(kv0).len() as int)[0] == s[idx]);
        if kv0.1 is Num {
            let q = idx + enc_member(kv0).len();
            let tail = enc_pairs_sep(rest) + seq![0x7du8];
            assert(s.subrange(q, q + tail.len() as int)[0] == s[q]);
            if rest.len() == 0 {
                assert(tail[0] == 0x7du8);
            } else {
                assert(tail[0] == 0x2cu8);
            }
        }
    }
}

/// A number-text byte, executably.
fn is_number_byte_e(b: u8) -> (r: bool)
    ensures
        r == is_number_byte(b),
{
    (0x30 <= b && b <= 0x39) || b == 0x2d || b == 0x2b || b == 0x2e || b == 0x65 || b == 0x45
}

/// Parse one payload value at `i`.
///
/// On success the consumed bytes are exactly the canonical encoding of
/// the returned well-formed value (with a number never stopping short
/// of a following number byte); and wherever a canonical value lies at
/// `i`, parsing succeeds and returns exactly that value.
#[verifier::loop_isolation(false)]
#[verifier::rlimit(100)]
fn parse_value(s: &Vec<u8>, i: usize) -> (r: Option<(Json, usize)>)
    ensures
        match r {
            Option::Some((j, n)) => {
                &&& i < n <= s@.len()
                &&& json_wf(json_model(j))
                &&& s@.subrange(i as int, n as int) == enc_json(json_model(j))
                &&& (json_model(j) is Num ==> (n == s@.len() || !is_number_byte(s@[n as int])))
            },
            Option::None => true,
        },
        forall|m: JsonView| #![trigger enc_json(m)]
            value_at(s@, i as int, m) ==> (r matches Option::Some((j, n)) && json_model(j) == m
                && n == i + enc_json(m).len()),
    decreases s@.len() - i, 3int,
{
    if i >= s.len() {
        proof {
            assert forall|m: JsonView| #![trigger enc_json(m)] !value_at(s@, i as int, m) by {
                if value_at(s@, i as int, m) {
                    lemma_enc_json_first(m);
                }
            }
        }
        return Option::None;
    }
    let b = s[i];
    proof {
        assert forall|m: JsonView| #![trigger enc_json(m)]
            value_at(s@, i as int, m) implies s@[i as int] == enc_json(m)[0] by {
            lemma_enc_json_first(m);
            assert(s@.subrange(i as int, i + enc_json(m).len() as int)[0] == s@[i as int]);
        }
    }
    if b == 0x6e {
        if s.len() - i >= 4 && s[i + 1] == 0x75 && s[i + 2] == 0x6c && s[i + 3] == 0x6c {
            proof {
                assert(s@.subrange(i as int, i + 4) =~= lit_null());
                assert forall|m: JsonView| #![trigger enc_json(m)]
                    value_at(s@, i as int, m) implies json_model(Json::Null) == m && i + 4 == i
                    + enc_json(m).len() by {
                    lemma_enc_json_first(m);
                    assert(m is Null);
                }
            }
            return Option::Some((Json::Null, i + 4));
        } else {
            proof {
                assert forall|m: JsonView| #![trigger enc_json(m)] !value_at(s@, i as int, m) by {
                    if value_at(s@, i as int, m) {
                        lemma_enc_json_first(m);
                        assert(m is Null);
                        assert forall|k: int| 0 <= k < 4 implies s@[i + k] == lit_null()[k] by {
                            assert(s@.subrange(i as int, i + 4)[k] == s@[i + k]);
                        }
                        assert(false);
                    }
                }
            }
            return Option::None;
        }
    } else if b == 0x74 {
        if s.len() - i >= 4 && s[i + 1] == 0x72 && s[i + 2] == 0x75 && s[i + 3] == 0x65 {
            proof {
                assert(s@.subrange(i as int, i + 4) =~= enc_json(JsonView::Bool(true)));
                assert forall|m: JsonView| #![trigger enc_json(m)]
                    value_at(s@, i as int, m) implies json_model(Json::Bool(true)) == m && i + 4
                    == i + enc_json(m).len() by {
                    lemma_enc_json_first(m);
                    assert(m is Bool);
                    if !(m == JsonView::Bool(true)) {
                        assert(m == JsonView::Bool(false));
                        assert(s@.subrange(i as int, i + enc_json(m).len() as int)[1] == s@[i + 1]);
                        assert(false);
                    }
                }
            }
            return Option::Some((Json::Bool(true), i + 4));
        } else {
            proof {
                assert forall|m: JsonView| #![trigger enc_json(m)] !value_at(s@, i as int, m) by {
                    if value_at(s@, i as int, m) {
                        lemma_enc_json_first(m);
                        assert(m is Bool);
                        if m == JsonView::Bool(false) {
                            assert(s@.subrange(i as int, i + enc_json(m).len() as int)[0] == s@[i
                                as int]);
                            assert(false);
                        }
                        assert(m == JsonView::Bool(true));
                        assert forall|k: int|
                            0 <= k < 4 implies s@[i + k] == enc_json(JsonView::Bool(true))[k] by {
                            assert(s@.subrange(i as int, i + 4)[k] == s@[i + k]);
                        }
                        assert(false);
                    }
                }
            }
            return Option::None;
        }
    } else if b == 0x66 {
        if s.len() - i >= 5 && s[i + 1] == 0x61 && s[i + 2] == 0x6c && s[i + 3] == 0x73 && s[i + 4]
            == 0x65 {
            proof {
                assert(s@.subrange(i as int, i + 5) =~= enc_json(JsonView::Bool(false)));
                assert forall|m: JsonView| #![trigger enc_json(m)]
                    value_at(s@, i as int, m) implies json_model(Json::Bool(false)) == m && i + 5
                    == i + enc_json(m).len() by {
                    lemma_enc_json_first(m);
                    assert(m is Bool);
                    if !(m == JsonView::Bool(false)) {
                        assert(m == JsonView::Bool(true));
                        assert(s@.subrange(i as int, i + enc_json(m).len() as int)[0] == s@[i
                            as int]);
                        assert(false);
                    }
                }
            }
            return Option::Some((Json::Bool(false), i + 5));
        } else {
            proof {
                assert forall|m: JsonView| #![trigger enc_json(m)] !value_at(s@, i as int, m) by {
                    if value_at(s@, i as int, m) {
                        lemma_enc_json_first(m);
                        assert(m is Bool);
                        if m == JsonView::Bool(true) {
                            assert(s@.subrange(i as int, i + enc_json(m).len() as int)[0] == s@[i
                                as int]);
                            assert(false);
                        }
                        assert(m == JsonView::Bool(false));
                        assert forall|k: int|
                            0 <= k < 5 implies s@[i + k] == enc_json(JsonView::Bool(false))[k] by {
                            assert(s@.subrange(i as int, i + 5)[k] == s@[i + k]);
                        }
                        assert(false);
                    }
                }
            }
            return Option::None;
        }
    } else if b == 0x22 {
        let body = parse_string_body(s, i + 1);
        proof {
            assert forall|m: JsonView| #![trigger enc_json(m)]
                value_at(s@, i as int, m) implies (m is Str && enc_at(
                s@,
                i + 1,
                enc_bytes(m->Str_0) + seq![0x22u8],
            )) by {
                lemma_enc_json_first(m);
                assert(m is Str);
                let c2 = m->Str_0;
                assert(enc_json(m) =~= seq![0x22u8] + (enc_bytes(c2) + seq![0x22u8]));
                lemma_enc_at_split(s@, i as int, seq![0x22u8], enc_bytes(c2) + seq![0x22u8]);
            }
        }
        match body {
            Option::Some((c, n)) => {
                proof {
                    assert(s@.subrange(i as int, n as int) =~= enc_str(c@)) by {
                        assert(s@.subrange(i + 1, n as int) == enc_bytes(c@) + seq![0x22u8]);
                        assert forall|k: int|
                            0 <= k < n - i - 1 implies s@[i + 1 + k] == (enc_bytes(c@)
                            + seq![0x22u8])[k] by {
                            assert(s@.subrange(i + 1, n as int)[k] == s@[i + 1 + k]);
                        }
                        assert forall|k: int|
                            0 <= k < n - i implies s@.subrange(i as int, n as int)[k] == enc_str(
                            c@,
                        )[k] by {
                            assert(s@.subrange(i as int, n as int)[k] == s@[i + k]);
                            if k > 0 {
                                assert(enc_str(c@)[k] == (enc_bytes(c@) + seq![0x22u8])[k - 1]);
                                assert(s@[i + 1 + (k - 1)] == (enc_bytes(c@) + seq![0x22u8])[k
                                    - 1]);
                            }
                        }
                    }
                }
                return Option::Some((Json::Str(c), n));
            },
            Option::None => {
                proof {
                    assert forall|m: JsonView| #![trigger enc_json(m)]
                        !value_at(s@, i as int, m) by {
                        if value_at(s@, i as int, m) {
                            assert(enc_at(s@, i + 1, enc_bytes(m->Str_0) + seq![0x22u8]));
                            assert(false);
                        }
                    }
                }
                return Option::None;
            },
        }
    } else if b == 0x2d || (0x30 <= b && b <= 0x39) {
        let mut n2: usize = i;
        while n2 < s.len() && is_number_byte_e(s[n2])
            invariant
                i <= n2 <= s@.len(),
                forall|k: int| i <= k < n2 ==> is_number_byte(#[trigger] s@[k]),
            decreases s@.len() - n2,
        {
            n2 = n2 + 1;
        }
        let mut t: Vec<u8> = Vec::new();
        let mut k: usize = i;
        while k < n2
            invariant
                i <= k <= n2 <= s@.len(),
                t@ == s@.subrange(i as int, k as int),
            decreases n2 - k,
        {
            t.push(s[k]);
            proof {
                assert(s@.subrange(i as int, k + 1) =~= s@.subrange(i as int, k as int).push(
                    s@[k as int],
                ));
            }
            k = k + 1;
        }
        proof {
            assert(n2 > i);
            assert(is_number_text(t@));
            assert forall|m: JsonView| #![trigger enc_json(m)]
                value_at(s@, i as int, m) implies json_model(Json::Num(t)) == m && n2 == i
                + enc_json(m).len() by {
                lemma_enc_json_first(m);
                assert(m is Num);
                let t2 = m->Num_0;
                assert forall|q: int| 0 <= q < t2.len() implies s@[i + q] == t2[q] by {
                    assert(s@.subrange(i as int, i + t2.len() as int)[q] == s@[i + q]);
                }
                if n2 < i + t2.len() {
                    assert(is_number_byte(t2[n2 - i]));
                    assert(false);
                }
                if n2 > i + t2.len() {
                    assert(is_number_byte(s@[i + t2.len()]));
                    assert(false);
                }
                assert(t@ =~= t2);
            }
        }
        return Option::Some((Json::Num(t), n2));
    } else if b == 0x5b {
        return parse_arr(s, i);
    } else if b == 0x7b {
        return parse_obj(s, i);
    } else {
        proof {
            assert forall|m: JsonView| #![trigger enc_json(m)] !value_at(s@, i as int, m) by {
                if value_at(s@, i as int, m) {
                    lemma_enc_json_first(m);
                }
            }
        }
        return Option::None;
    }
}

/// Parse an array value at `i`, which holds an opening bracket.
#[verifier::loop_isolation(false)]
#[verifier::rlimit(100)]
fn parse_arr(s: &Vec<u8>, i: usize) -> (r: Option<(Json, usize)>)
    requires
        i < s@.len(),
        s@[i as int] == 0x5bu8,
    ensures
        match r {
            Option::Some((j, n)) => {
                &&& i < n <= s@.len()
                &&& json_wf(json_model(j))
                &&& s@.subrange(i as int, n as int) == enc_json(json_model(j))
                &&& (json_model(j) is Num ==> (n == s@.len() || !is_number_byte(s@[n as int])))
            },
            Option::None => true,
        },
        forall|m: JsonView| #![trigger enc_json(m)]
            value_at(s@, i as int, m) ==> (r matches Option::Some((j, n)) && json_model(j) == m
                && n == i + enc_json(m).len()),
    decreases s@.len() - i, 2int,
{
        proof {
            assert forall|m: JsonView| #![trigger enc_json(m)]
                value_at(s@, i as int, m) implies (m is Arr && json_list_wf(arr_elems(m)) && enc_at(
                s@,
                i + 1,
                enc_list(arr_elems(m)) + seq![0x5du8],
            )) by {
                lemma_enc_json_first(m);
                assert(m is Arr);
                let elems = arr_elems(m);
                assert(enc_json(m) =~= seq![0x5bu8] + (enc_list(elems) + seq![0x5du8]));
                lemma_enc_at_split(s@, i as int, seq![0x5bu8], enc_list(elems) + seq![0x5du8]);
            }
        }
        let total = s.len();
        let i1 = i + 1;
        if i1 < s.len() && s[i1] == 0x5d {
            let items: Vec<Json> = Vec::new();
            proof {
                assert(json_list_model(items@) =~= Seq::<JsonView>::empty());
                assert(s@.subrange(i as int, i1 + 1) =~= enc_json(
                    json_model(Json::Arr(items)),
                ));
                assert forall|m: JsonView| #![trigger enc_json(m)]
                    value_at(s@, i as int, m) implies json_model(Json::Arr(items)) == m && i1 + 1
                    == i + enc_json(m).len() by {
                    lemma_list_at(s@, i1 as int, arr_elems(m));
                    assert(arr_elems(m).len() == 0);
                    assert(arr_elems(m) =~= json_list_model(items@));
                }
            }
            return Option::Some((Json::Arr(items), i1 + 1));
        }
        match parse_value(s, i1) {
            Option::None => {
                proof {
                    assert forall|m: JsonView| #![trigger enc_json(m)]
                        !value_at(s@, i as int, m) by {
                        if value_at(s@, i as int, m) {
                            let elems = arr_elems(m);
                            assert(i1 < s@.len()) by {
                                assert(enc_at(s@, i + 1, enc_list(elems) + seq![0x5du8]));
                            }
                            lemma_list_at(s@, i1 as int, elems);
                            assert(elems.len() >= 1);
                            assert(false);
                        }
                    }
                }
                return Option::None;
            },
            Option::Some((j0, n0)) => {
                let mut items: Vec<Json> = Vec::new();
                items.push(j0);
                let mut idx = n0;
                proof {
                    assert(items@ =~= Seq::<Json>::empty().push(j0));
                    lemma_json_list_model_snoc(Seq::<Json>::empty(), j0);
                    assert(json_list_model(Seq::<Json>::empty()) =~= Seq::<JsonView>::empty());
                    assert(json_list_model(items@) =~= Seq::<JsonView>::empty().push(
                        json_model(j0),
                    ));
                    assert(json_list_wf(json_list_model(items@))) by {
                        lemma_json_list_wf_snoc(Seq::<JsonView>::empty(), json_model(j0));
                    }
                    assert(enc_list(json_list_model(items@)) =~= enc_json(json_model(j0))) by {
                        lemma_enc_list_snoc(Seq::<JsonView>::empty(), json_model(j0));
                    }
                    assert forall|m: JsonView| #![trigger enc_json(m)]
                        value_at(s@, i as int, m) implies {
                        &&& m is Arr
                        &&& items@.len() <= arr_elems(m).len()
                        &&& json_list_model(items@) == arr_elems(m).subrange(
                            0,
                            items@.len() as int,
                        )
                        &&& enc_at(
                            s@,
                            idx as int,
                            enc_list_sep(
                                arr_elems(m).subrange(
                                    items@.len() as int,
                                    arr_elems(m).len() as int,
                                ),
                            ) + seq![0x5du8],
                        )
                    } by {
                        let elems = arr_elems(m);
                        assert(i1 < s@.len()) by {
                            assert(enc_at(s@, i + 1, enc_list(elems) + seq![0x5du8]));
                        }
                        lemma_list_at(s@, i1 as int, elems);
                        assert(elems.len() >= 1);
                        assert(json_model(j0) == elems[0]);
                        assert(json_list_model(items@) =~= elems.subrange(0, 1));
                    }
                }
                while idx < s.len()
                    invariant
                        i < i1 <= idx <= s@.len(),
                        items@.len() >= 1,
                        json_list_wf(json_list_model(items@)),
                        s@[i as int] == 0x5bu8,
                        s@.subrange(i1 as int, idx as int) == enc_list(json_list_model(items@)),
                        forall|m: JsonView| #![trigger enc_json(m)]
                            value_at(s@, i as int, m) ==> {
                                &&& m is Arr
                                &&& items@.len() <= arr_elems(m).len()
                                &&& json_list_model(items@) == arr_elems(m).subrange(
                                    0,
                                    items@.len() as int,
                                )
                                &&& enc_at(
                                    s@,
                                    idx as int,
                                    enc_list_sep(
                                        arr_elems(m).subrange(
                                            items@.len() as int,
                                            arr_elems(m).len() as int,
                                        ),
                                    ) + seq![0x5du8],
                                )
                            },
                    decreases s@.len() - idx,
                {
                    let c = s[idx];
                    if c == 0x5d {
                        proof {
                            assert(s@.subrange(i as int, idx + 1) =~= enc_json(
                                json_model(Json::Arr(items)),
                            )) by {
                                assert(s@.subrange(i1 as int, idx as int) == enc_list(
                                    json_list_model(items@),
                                ));
                                assert forall|q: int|
                                    0 <= q < idx - i1 implies s@[i1 + q] == enc_list(
                                    json_list_model(items@),
                                )[q] by {
                                    assert(s@.subrange(i1 as int, idx as int)[q] == s@[i1 + q]);
                                }
                            }
                            assert forall|m: JsonView| #![trigger enc_json(m)]
                                value_at(s@, i as int, m) implies json_model(Json::Arr(items)) == m
                                && idx + 1 == i + enc_json(m).len() by {
                                let k2 = items@.len() as int;
                                let rest = arr_elems(m).subrange(k2, arr_elems(m).len() as int);
                                assert(json_list_wf(rest)) by {
                                    lemma_json_list_wf_skip(arr_elems(m), k2);
                                    assert(json_list_wf(arr_elems(m))) by {
                                        lemma_json_list_wf_snoc(
                                            Seq::<JsonView>::empty(),
                                            json_model(j0),
                                        );
                                    }
                                }
                                lemma_list_sep_at(s@, idx as int, rest);
                                assert(rest.len() == 0);
                                assert(arr_elems(m) =~= json_list_model(items@));
                                assert(enc_json(m).len() == 1 + enc_list(arr_elems(m)).len() + 1);
                            }
                        }
                        return Option::Some((Json::Arr(items), idx + 1));
                    } else if c == 0x2c {
                        let ghost pre_items = items@;
                        match parse_value(s, idx + 1) {
                            Option::None => {
                                proof {
                                    assert forall|m: JsonView| #![trigger enc_json(m)]
                                        !value_at(s@, i as int, m) by {
                                        if value_at(s@, i as int, m) {
                                            let k2 = pre_items.len() as int;
                                            let rest = arr_elems(m).subrange(
                                                k2,
                                                arr_elems(m).len() as int,
                                            );
                                            assert(json_list_wf(rest)) by {
                                                assert(json_wf(m));
                                                lemma_json_list_wf_skip(arr_elems(m), k2);
                                            }
                                            lemma_list_sep_at(s@, idx as int, rest);
                                            assert(rest.len() >= 1);
                                            assert(value_at(s@, idx + 1, rest[0]));
                                            assert(false);
                                        }
                                    }
                                }
                                return Option::None;
                            },
                            Option::Some((jk, nk)) => {
                                items.push(jk);
                                proof {
                                    lemma_json_list_model_snoc(pre_items, jk);
                                    lemma_enc_list_snoc(
                                        json_list_model(pre_items),
                                        json_model(jk),
                                    );
                                    lemma_json_list_wf_snoc(
                                        json_list_model(pre_items),
                                        json_model(jk),
                                    );
                                    assert(json_list_model(pre_items).len() == pre_items.len())
                                        by {
                                        lemma_json_list_model_len(pre_items);
                                    }
                                    assert(s@.subrange(i1 as int, nk as int) =~= enc_list(
                                        json_list_model(items@),
                                    )) by {
                                        assert(s@.subrange(idx + 1, nk as int) == enc_json(
                                            json_model(jk),
                                        ));
                                        assert forall|q: int|
                                            0 <= q < nk - idx - 1 implies s@[idx + 1 + q]
                                            == enc_json(json_model(jk))[q] by {
                                            assert(s@.subrange(idx + 1, nk as int)[q] == s@[idx + 1
                                                + q]);
                                        }
                                        assert forall|q: int|
                                            0 <= q < idx - i1 implies s@[i1 + q] == enc_list(
                                            json_list_model(pre_items),
                                        )[q] by {
                                            assert(s@.subrange(i1 as int, idx as int)[q] == s@[i1
                                                + q]);
                                        }
                                    }
                                    assert forall|m: JsonView| #![trigger enc_json(m)]
                                        value_at(s@, i as int, m) implies {
                                        &&& m is Arr
                                        &&& items@.len() <= arr_elems(m).len()
                                        &&& json_list_model(items@) == arr_elems(m).subrange(
                                            0,
                                            items@.len() as int,
                                        )
                                        &&& enc_at(
                                            s@,
                                            nk as int,
                                            enc_list_sep(
                                                arr_elems(m).subrange(
                                                    items@.len() as int,
                                                    arr_elems(m).len() as int,
                                                ),
                                            ) + seq![0x5du8],
                                        )
                                    } by {
                                        let k2 = pre_items.len() as int;
                                        let elems = arr_elems(m);
                                        let rest = elems.subrange(k2, elems.len() as int);
                                        assert(json_list_wf(rest)) by {
                                            assert(json_wf(m));
                                            lemma_json_list_wf_skip(elems, k2);
                                        }
                                        lemma_list_sep_at(s@, idx as int, rest);
                                        assert(rest.len() >= 1);
                                        assert(value_at(s@, idx + 1, rest[0]));
                                        assert(json_model(jk) == rest[0]);
                                        assert(rest[0] == elems[k2]);
                                        assert(json_list_model(items@) =~= elems.subrange(
                                            0,
                                            k2 + 1,
                                        ));
                                        assert(rest.subrange(1, rest.len() as int) =~= elems
                                            .subrange(k2 + 1, elems.len() as int));
                                    }
                                }
                                idx = nk;
                            },
                        }
                    } else {
                        proof {
                            assert forall|m: JsonView| #![trigger enc_json(m)]
                                !value_at(s@, i as int, m) by {
                                if value_at(s@, i as int, m) {
                                    let k2 = items@.len() as int;
                                    let rest = arr_elems(m).subrange(k2, arr_elems(m).len() as int);
                                    assert(json_list_wf(rest)) by {
                                        assert(json_wf(m));
                                        lemma_json_list_wf_skip(arr_elems(m), k2);
                                    }
                                    lemma_list_sep_at(s@, idx as int, rest);
                                    assert(false);
                                }
                            }
                        }
                        return Option::None;
                    }
                }
                proof {
                    assert forall|m: JsonView| #![trigger enc_json(m)]
                        !value_at(s@, i as int, m) by {
                        if value_at(s@, i as int, m) {
                            let k2 = items@.len() as int;
                            let rest = arr_elems(m).subrange(k2, arr_elems(m).len() as int);
                            assert(enc_at(
                                s@,
                                idx as int,
                                enc_list_sep(rest) + seq![0x5du8],
                            ));
                            assert((enc_list_sep(rest) + seq![0x5du8]).len() >= 1);
                            assert(false);
                        }
                    }
                }
                return Option::None;
            },
        }
}

/// Parse an object value at `i`, which holds an opening brace.
#[verifier::loop_isolation(false)]
#[verifier::rlimit(100)]
fn parse_obj(s: &Vec<u8>, i: usize) -> (r: Option<(Json, usize)>)
    requires
        i < s@.len(),
        s@[i as int] == 0x7bu8,
    ensures
        match r {
            Option::Some((j, n)) => {
                &&& i < n <= s@.len()
                &&& json_wf(json_model(j))
                &&& s@.subrange(i as int, n as int) == enc_json(json_model(j))
                &&& (json_model(j) is Num ==> (n == s@.len() || !is_number_byte(s@[n as int])))
            },
            Option::None => true,
        },
        forall|m: JsonView| #![trigger enc_json(m)]
            value_at(s@, i as int, m) ==> (r matches Option::Some((j, n)) && json_model(j) == m
                && n == i + enc_json(m).len()),
    decreases s@.len() - i, 1int,
{
        proof {
            assert forall|m: JsonView| #![trigger enc_json(m)]
                value_at(s@, i as int, m) implies (m is Obj && json_pairs_wf(obj_members(m))
                && enc_at(s@, i + 1, enc_pairs(obj_members(m)) + seq![0x7du8])) by {
                lemma_enc_json_first(m);
                assert(s@.subrange(i as int, i + enc_json(m).len() as int)[0] == s@[i as int]);
                assert(m is Obj);
                let members = obj_members(m);
                assert(enc_json(m) =~= seq![0x7bu8] + (enc_pairs(members) + seq![0x7du8]));
                lemma_enc_at_split(s@, i as int, seq![0x7bu8], enc_pairs(members) + seq![0x7du8]);
            }
        }
        let total = s.len();
        let i1 = i + 1;
        if i1 < s.len() && s[i1] == 0x7d {
            let items: Vec<(Vec<u8>, Json)> = Vec::new();
            proof {
                assert(json_pairs_model(items@) =~= Seq::<(Seq<u8>, JsonView)>::empty());
                assert(s@.subrange(i as int, i1 + 1) =~= enc_json(json_model(Json::Obj(items))));
                assert forall|m: JsonView| #![trigger enc_json(m)]
                    value_at(s@, i as int, m) implies json_model(Json::Obj(items)) == m && i1 + 1
                    == i + enc_json(m).len() by {
                    lemma_pairs_at(s@, i1 as int, obj_members(m));
                    assert(obj_members(m).len() == 0);
                    assert(obj_members(m) =~= json_pairs_model(items@));
                }
            }
            return Option::Some((Json::Obj(items), i1 + 1));
        }
        match parse_member(s, i1) {
            Option::None => {
                proof {
                    assert forall|m: JsonView| #![trigger enc_json(m)]
                        !value_at(s@, i as int, m) by {
                        if value_at(s@, i as int, m) {
                            let members = obj_members(m);
                            assert(i1 < s@.len()) by {
                                assert(enc_at(s@, i + 1, enc_pairs(members) + seq![0x7du8]));
                            }
                            lemma_pairs_at(s@, i1 as int, members);
                            assert(members.len() >= 1);
                            assert(false);
                        }
                    }
                }
                return Option::None;
            },
            Option::Some((key0, j0, n0)) => {
                let mut items: Vec<(Vec<u8>, Json)> = Vec::new();
                items.push((key0, j0));
                let mut idx = n0;
                proof {
                    let kv0 = (items@[0].0@, json_model(items@[0].1));
                    assert(items@ =~= Seq::<(Vec<u8>, Json)>::empty().push(items@[0]));
                    lemma_json_pairs_model_snoc(Seq::<(Vec<u8>, Json)>::empty(), items@[0]);
                    assert(json_pairs_model(Seq::<(Vec<u8>, Json)>::empty()) =~= Seq::<
                        (Seq<u8>, JsonView),
                    >::empty());
                    assert(json_pairs_model(items@) =~= Seq::<(Seq<u8>, JsonView)>::empty().push(
                        kv0,
                    ));
                    assert(json_pairs_wf(json_pairs_model(items@))) by {
                        lemma_json_pairs_wf_snoc(Seq::<(Seq<u8>, JsonView)>::empty(), kv0);
                    }
                    assert(enc_pairs(json_pairs_model(items@)) =~= enc_member(kv0)) by {
                        lemma_enc_pairs_snoc(Seq::<(Seq<u8>, JsonView)>::empty(), kv0);
                    }
                    assert forall|m: JsonView| #![trigger enc_json(m)]
                        value_at(s@, i as int, m) implies {
                        &&& m is Obj
                        &&& items@.len() <= obj_members(m).len()
                        &&& json_pairs_model(items@) == obj_members(m).subrange(
                            0,
                            items@.len() as int,
                        )
                        &&& enc_at(
                            s@,
                            idx as int,
                            enc_pairs_sep(
                                obj_members(m).subrange(
                                    items@.len() as int,
                                    obj_members(m).len() as int,
                                ),
                            ) + seq![0x7du8],
                        )
                    } by {
                        let members = obj_members(m);
                        assert(i1 < s@.len()) by {
                            assert(enc_at(s@, i + 1, enc_pairs(members) + seq![0x7du8]));
                        }
                        lemma_pairs_at(s@, i1 as int, members);
                        assert(members.len() >= 1);
                        assert(key0@ == members[0].0 && json_model(items@[0].1) == members[0].1);
                        assert(kv0 == members[0]);
                        assert(json_pairs_model(items@) =~= members.subrange(0, 1));
                    }
                }
                while idx < s.len()
                    invariant
                        i < i1 <= idx <= s@.len(),
                        items@.len() >= 1,
                        json_pairs_wf(json_pairs_model(items@)),
                        s@[i as int] == 0x7bu8,
                        s@.subrange(i1 as int, idx as int) == enc_pairs(json_pairs_model(items@)),
                        forall|m: JsonView| #![trigger enc_json(m)]
                            value_at(s@, i as int, m) ==> {
                                &&& m is Obj
                                &&& items@.len() <= obj_members(m).len()
                                &&& json_pairs_model(items@) == obj_members(m).subrange(
                                    0,
                                    items@.len() as int,
                                )
                                &&& enc_at(
                                    s@,
                                    idx as int,
                                    enc_pairs_sep(
                                        obj_members(m).subrange(
                                            items@.len() as int,
                                            obj_members(m).len() as int,
                                        ),
                                    ) + seq![0x7du8],
                                )
                            },
                    decreases s@.len() - idx,
                {
                    let c = s[idx];
                    if c == 0x7d {
                        proof {
                            assert(s@.subrange(i as int, idx + 1) =~= enc_json(
                                json_model(Json::Obj(items)),
                            )) by {
                                assert(s@.subrange(i1 as int, idx as int) == enc_pairs(
                                    json_pairs_model(items@),
                                ));
                                assert forall|q: int|
                                    0 <= q < idx - i1 implies s@[i1 + q] == enc_pairs(
                                    json_pairs_model(items@),
                                )[q] by {
                                    assert(s@.subrange(i1 as int, idx as int)[q] == s@[i1 + q]);
                                }
                            }
                            assert forall|m: JsonView| #![trigger enc_json(m)]
                                value_at(s@, i as int, m) implies json_model(Json::Obj(items)) == m
                                && idx + 1 == i + enc_json(m).len() by {
                                let k2 = items@.len() as int;
                                let members = obj_members(m);
                                let rest = members.subrange(k2, members.len() as int);
                                assert(json_pairs_wf(rest)) by {
                                    assert(json_wf(m));
                                    lemma_json_pairs_wf_skip(members, k2);
                                }
                                lemma_pairs_sep_at(s@, idx as int, rest);
                                assert(rest.len() == 0);
                                assert(members =~= json_pairs_model(items@));
                                assert(enc_json(m).len() == 1 + enc_pairs(members).len() + 1);
                            }
                        }
                        return Option::Some((Json::Obj(items), idx + 1));
                    } else if c == 0x2c {
                        let ghost pre_items = items@;
                        match parse_member(s, idx + 1) {
                            Option::None => {
                                proof {
                                    assert forall|m: JsonView| #![trigger enc_json(m)]
                                        !value_at(s@, i as int, m) by {
                                        if value_at(s@, i as int, m) {
                                            let k2 = pre_items.len() as int;
                                            let members = obj_members(m);
                                            let rest = members.subrange(k2, members.len() as int);
                                            assert(json_pairs_wf(rest)) by {
                                                assert(json_wf(m));
                                                lemma_json_pairs_wf_skip(members, k2);
                                            }
                                            lemma_pairs_sep_at(s@, idx as int, rest);
                                            assert(rest.len() >= 1);
                                            assert(member_at(s@, idx + 1, rest[0]));
                                            assert(false);
                                        }
                                    }
                                }
                                return Option::None;
                            },
                            Option::Some((keyk, jk, nk)) => {
                                items.push((keyk, jk));
                                proof {
                                    let kvk = (items@.last().0@, json_model(items@.last().1));
                                    lemma_json_pairs_model_snoc(pre_items, items@.last());
                                    lemma_enc_pairs_snoc(json_pairs_model(pre_items), kvk);
                                    lemma_json_pairs_wf_snoc(json_pairs_model(pre_items), kvk);
                                    assert(json_pairs_model(pre_items).len() == pre_items.len())
                                        by {
                                        lemma_json_pairs_model_len(pre_items);
                                    }
                                    assert(s@.subrange(i1 as int, nk as int) =~= enc_pairs(
                                        json_pairs_model(items@),
                                    )) by {
                                        assert(s@.subrange(idx + 1, nk as int) == enc_member(kvk));
                                        assert forall|q: int|
                                            0 <= q < nk - idx - 1 implies s@[idx + 1 + q]
                                            == enc_member(kvk)[q] by {
                                            assert(s@.subrange(idx + 1, nk as int)[q] == s@[idx + 1
                                                + q]);
                                        }
                                        assert forall|q: int|
                                            0 <= q < idx - i1 implies s@[i1 + q] == enc_pairs(
                                            json_pairs_model(pre_items),
                                        )[q] by {
                                            assert(s@.subrange(i1 as int, idx as int)[q] == s@[i1
                                                + q]);
                                        }
                                    }
                                    assert forall|m: JsonView| #![trigger enc_json(m)]
                                        value_at(s@, i as int, m) implies {
                                        &&& m is Obj
                                        &&& items@.len() <= obj_members(m).len()
                                        &&& json_pairs_model(items@) == obj_members(m).subrange(
                                            0,
                                            items@.len() as int,
                                        )
                                        &&& enc_at(
                                            s@,
                                            nk as int,
                                            enc_pairs_sep(
                                                obj_members(m).subrange(
                                                    items@.len() as int,
                                                    obj_members(m).len() as int,
                                                ),
                                            ) + seq![0x7du8],
                                        )
                                    } by {
                                        let k2 = pre_items.len() as int;
                                        let members = obj_members(m);
                                        let rest = members.subrange(k2, members.len() as int);
                                        assert(json_pairs_wf(rest)) by {
                                            assert(json_wf(m));
                                            lemma_json_pairs_wf_skip(members, k2);
                                        }
                                        lemma_pairs_sep_at(s@, idx as int, rest);
                                        assert(rest.len() >= 1);
                                        assert(member_at(s@, idx + 1, rest[0]));
                                        assert(keyk@ == rest[0].0 && json_model(items@.last().1)
                                            == rest[0].1);
                                        assert(kvk == rest[0]);
                                        assert(rest[0] == members[k2]);
                                        assert(json_pairs_model(items@) =~= members.subrange(
                                            0,
                                            k2 + 1,
                                        ));
                                        assert(rest.subrange(1, rest.len() as int) =~= members
                                            .subrange(k2 + 1, members.len() as int));
                                    }
                                }
                                idx = nk;
                            },
                        }
                    } else {
                        proof {
                            assert forall|m: JsonView| #![trigger enc_json(m)]
                                !value_at(s@, i as int, m) by {
                                if value_at(s@, i as int, m) {
                                    let k2 = items@.len() as int;
                                    let members = obj_members(m);
                                    let rest = members.subrange(k2, members.len() as int);
                                    assert(json_pairs_wf(rest)) by {
                                        assert(json_wf(m));
                                        lemma_json_pairs_wf_skip(members, k2);
                                    }
                                    lemma_pairs_sep_at(s@, idx as int, rest);
                                    assert(false);
                                }
                            }
                        }
                        return Option::None;
                    }
                }
                proof {
                    assert forall|m: JsonView| #![trigger enc_json(m)]
                        !value_at(s@, i as int, m) by {
                        if value_at(s@, i as int, m) {
                            let k2 = items@.len() as int;
                            let rest = obj_members(m).subrange(k2, obj_members(m).len() as int);
                            assert(enc_at(s@, idx as int, enc_pairs_sep(rest) + seq![0x7du8]));
                            assert((enc_pairs_sep(rest) + seq![0x7du8]).len() >= 1);
                            assert(false);
                        }
                    }
                }
                return Option::None;
            },
        }
}

/// The tail of a well-formed member sequence is well formed.
proof fn lemma_json_pairs_wf_skip(s: Seq<(Seq<u8>, JsonView)>, k: int)
    requires
        json_pairs_wf(s),
        0 <= k <= s.len(),
    ensures
        json_pairs_wf(s.subrange(k, s.len() as int)),
    decreases k,
{
    if k == 0 {
        assert(s.subrange(0, s.len() as int) =~= s);
    } else {
        lemma_json_pairs_wf_skip(s.subrange(1, s.len() as int), k - 1);
        assert(s.subrange(1, s.len() as int).subrange(k - 1, s.len() - 1) =~= s.subrange(
            k,
            s.len() as int,
        ));
    }
}

/// Parse one object member (quoted key, colon, value) at `i`.
///
/// Mirrors `parse_value`: sound on success, and exact wherever a
/// canonical member lies at `i`.
#[verifier::loop_isolation(false)]
#[verifier::rlimit(100)]
fn parse_member(s: &Vec<u8>, i: usize) -> (r: Option<(Vec<u8>, Json, usize)>)
    ensures
        match r {
            Option::Some((key, j, n)) => {
                &&& i < n <= s@.len()
                &&& json_wf(json_model(j))
                &&& s@.subrange(i as int, n as int) == enc_member((key@, json_model(j)))
                &&& (json_model(j) is Num ==> (n == s@.len() || !is_number_byte(s@[n as int])))
            },
            Option::None => true,
        },
        forall|kv: (Seq<u8>, JsonView)| #![trigger enc_member(kv)]
            member_at(s@, i as int, kv) ==> (r matches Option::Some((key, j, n)) && key@ == kv.0
                && json_model(j) == kv.1 && n == i + enc_member(kv).len()),
    decreases s@.len() - i, 0int,
{
    proof {
        assert forall|kv: (Seq<u8>, JsonView)| #![trigger enc_member(kv)]
            member_at(s@, i as int, kv) implies {
            &&& i < s@.len()
            &&& s@[i as int] == 0x22u8
            &&& enc_at(s@, i + 1, enc_bytes(kv.0) + seq![0x22u8])
            &&& i + 2 + enc_bytes(kv.0).len() < s@.len()
            &&& s@[i + 2 + enc_bytes(kv.0).len()] == 0x3au8
            &&& value_at(s@, i + 3 + enc_bytes(kv.0).len(), kv.1)
        } by {
            assert(enc_member(kv) =~= seq![0x22u8] + ((enc_bytes(kv.0) + seq![0x22u8]) + (
            seq![0x3au8] + enc_json(kv.1))));
            lemma_enc_at_split(
                s@,
                i as int,
                seq![0x22u8],
                (enc_bytes(kv.0) + seq![0x22u8]) + (seq![0x3au8] + enc_json(kv.1)),
            );
            assert(s@.subrange(i as int, i + 1)[0] == s@[i as int]);
            lemma_enc_at_split(
                s@,
                i + 1,
                enc_bytes(kv.0) + seq![0x22u8],
                seq![0x3au8] + enc_json(kv.1),
            );
            lemma_enc_at_split(
                s@,
                i + 1 + (enc_bytes(kv.0).len() + 1),
                seq![0x3au8],
                enc_json(kv.1),
            );
            assert(s@.subrange(i + 2 + enc_bytes(kv.0).len(), i + 3 + enc_bytes(kv.0).len())[0]
                == s@[i + 2 + enc_bytes(kv.0).len()]);
            lemma_enc_json_first(kv.1);
            if kv.1 is Num {
                assert(i + enc_member(kv).len() == i + 3 + enc_bytes(kv.0).len() + enc_json(
                    kv.1,
                ).len());
            }
        }
    }
    if i >= s.len() || s[i] != 0x22 {
        return Option::None;
    }
    match parse_string_body(s, i + 1) {
        Option::None => {
            proof {
                assert forall|kv: (Seq<u8>, JsonView)| #![trigger enc_member(kv)]
                    !member_at(s@, i as int, kv) by {
                    if member_at(s@, i as int, kv) {
                        assert(enc_at(s@, i + 1, enc_bytes(kv.0) + seq![0x22u8]));
                        assert(false);
                    }
                }
            }
            return Option::None;
        },
        Option::Some((key, n1)) => {
            if n1 >= s.len() || s[n1] != 0x3a {
                proof {
                    assert forall|kv: (Seq<u8>, JsonView)| #![trigger enc_member(kv)]
                        !member_at(s@, i as int, kv) by {
                        if member_at(s@, i as int, kv) {
                            assert(key@ == kv.0);
                            assert(n1 == i + 2 + enc_bytes(kv.0).len());
                            assert(s@[n1 as int] == 0x3au8);
                            assert(false);
                        }
                    }
                }
                return Option::None;
            }
            match parse_value(s, n1 + 1) {
                Option::None => {
                    proof {
                        assert forall|kv: (Seq<u8>, JsonView)| #![trigger enc_member(kv)]
                            !member_at(s@, i as int, kv) by {
                            if member_at(s@, i as int, kv) {
                                assert(key@ == kv.0);
                                assert(n1 == i + 1 + enc_bytes(kv.0).len() + 1);
                                assert(value_at(s@, n1 + 1, kv.1));
                                assert(false);
                            }
                        }
                    }
                    return Option::None;
                },
                Option::Some((j, n2)) => {
                    proof {
                        let em = seq![0x22u8] + ((enc_bytes(key@) + seq![0x22u8]) + (seq![0x3au8]
                            + enc_json(json_model(j))));
                        assert(enc_member((key@, json_model(j))) =~= em);
                        let kl = enc_bytes(key@).len() as int;
                        assert(s@.subrange(i + 1, n1 as int) == enc_bytes(key@) + seq![0x22u8]);
                        assert(s@.subrange(n1 + 1, n2 as int) == enc_json(json_model(j)));
                        assert(n1 == i + 2 + kl);
                        assert(n2 - i == em.len());
                        assert forall|q: int|
                            0 <= q < n2 - i implies s@[i + q] == em[q] by {
                            if q == 0 {
                            } else if q <= 1 + kl {
                                assert(s@.subrange(i + 1, n1 as int)[q - 1] == s@[i + 1 + (q
                                    - 1)]);
                                assert(em[q] == (enc_bytes(key@) + seq![0x22u8])[q - 1]);
                            } else if q == 2 + kl {
                                assert(em[q] == 0x3au8);
                            } else {
                                assert(s@.subrange(n1 + 1, n2 as int)[q - 3 - kl] == s@[n1 + 1 + (q
                                    - 3 - kl)]);
                                assert(em[q] == enc_json(json_model(j))[q - 3 - kl]);
                            }
                        }
                        assert(s@.subrange(i as int, n2 as int) =~= em) by {
                            assert forall|q: int|
                                0 <= q < n2 - i implies s@.subrange(i as int, n2 as int)[q]
                                == em[q] by {
                                assert(s@.subrange(i as int, n2 as int)[q] == s@[i + q]);
                            }
                        }
                        assert forall|kv: (Seq<u8>, JsonView)| #![trigger enc_member(kv)]
                            member_at(s@, i as int, kv) implies (key@ == kv.0 && json_model(j)
                            == kv.1 && n2 == i + enc_member(kv).len()) by {
                            assert(n1 == i + 1 + enc_bytes(kv.0).len() + 1);
                            assert(value_at(s@, n1 + 1, kv.1));
                            assert(json_model(j) == kv.1);
                            assert(n2 == n1 + 1 + enc_json(kv.1).len());
                        }
                    }
                    return Option::Some((key, j, n2));
                },
            }
        },
    }
}

/// The hypothesis of record decoding: the input is the canonical wire
/// form of the well-formed record `m`.
pub open spec fn rec_hyp(s: Seq<u8>, m: RecordView) -> bool {
    record_wf(m) && s == enc_record(m)
}

/// Offset of the payload field in a record's wire form.
pub open spec fn p_value() -> int {
    lit_value().len() as int
}

/// Offset of the `,"message":` literal.
pub open spec fn p_msg_lit(m: RecordView) -> int {
    p_value() + enc_value_field(m.value).len()
}

/// Offset of the message string.
pub open spec fn p_msg(m: RecordView) -> int {
    p_msg_lit(m) + lit_message().len()
}

/// Offset of the `,"level":` literal.
pub open spec fn p_level_lit(m: RecordView) -> int {
    p_msg(m) + enc_str(m.message).len()
}

/// Offset of the level string.
pub open spec fn p_level(m: RecordView) -> int {
    p_level_lit(m) + lit_level().len()
}

/// Offset of the `,"file":` literal.
pub open spec fn p_file_lit(m: RecordView) -> int {
    p_level(m) + enc_str(level_text(m.level)).len()
}

/// Offset of the file field.
pub open spec fn p_file(m: RecordView) -> int {
    p_file_lit(m) + lit_file().len()
}

/// Offset of the `,"module":` literal.
pub open spec fn p_module_lit(m: RecordView) -> int {
    p_file(m) + enc_opt_str(m.file).len()
}

/// Offset of the module field.
pub open spec fn p_module(m: RecordView) -> int {
    p_module_lit(m) + lit_module().len()
}

/// Offset of the `,"line":` literal.
pub open spec fn p_line_lit(m: RecordView) -> int {
    p_module(m) + enc_opt_str(m.module).len()
}

/// Offset of the line field.
pub open spec fn p_line(m: RecordView) -> int {
    p_line_lit(m) + lit_line().len()
}

/// Offset of the closing brace.
pub open spec fn p_close(m: RecordView) -> int {
    p_line(m) + enc_line_field(m.line).len()
}

/// A record's wire form splits into its pieces at fixed offsets.
proof fn lemma_record_split(s: Seq<u8>, m: RecordView)
    requires
        rec_hyp(s, m),
    ensures
        s.len() == p_close(m) + 1,
        enc_at(s, 0, lit_value()),
        enc_at(s, p_value(), enc_value_field(m.value)),
        enc_at(s, p_msg_lit(m), lit_message()),
        enc_at(s, p_msg(m), enc_str(m.message)),
        enc_at(s, p_level_lit(m), lit_level()),
        enc_at(s, p_level(m), enc_str(level_text(m.level))),
        enc_at(s, p_file_lit(m), lit_file()),
        enc_at(s, p_file(m), enc_opt_str(m.file)),
        enc_at(s, p_module_lit(m), lit_module()),
        enc_at(s, p_module(m), enc_opt_str(m.module)),
        enc_at(s, p_line_lit(m), lit_line()),
        enc_at(s, p_line(m), enc_line_field(m.line)),
        enc_at(s, p_close(m), seq![0x7du8]),
        s[p_msg_lit(m)] == 0x2cu8,
        s[p_close(m)] == 0x7du8,
{
    let t1 = lit_value();
    let t2 = enc_value_field(m.value);
    let t3 = lit_message();
    let t4 = enc_str(m.message);
    let t5 = lit_level();
    let t6 = enc_str(level_text(m.level));
    let t7 = lit_file();
    let t8 = enc_opt_str(m.file);
    let t9 = lit_module();
    let t10 = enc_opt_str(m.module);
    let t11 = lit_line();
    let t12 = enc_line_field(m.line);
    let t13 = seq![0x7du8];
    assert(enc_at(s, 0, enc_record(m))) by {
        assert(s.subrange(0, s.len() as int) =~= s);
    }
    lemma_enc_at_split(
        s,
        0,
        t1 + t2 + t3 + t4 + t5 + t6 + t7 + t8 + t9 + t10 + t11 + t12,
        t13,
    );
    lemma_enc_at_split(s, 0, t1 + t2 + t3 + t4 + t5 + t6 + t7 + t8 + t9 + t10 + t11, t12);
    lemma_enc_at_split(s, 0, t1 + t2 + t3 + t4 + t5 + t6 + t7 + t8 + t9 + t10, t11);
    lemma_enc_at_split(s, 0, t1 + t2 + t3 + t4 + t5 + t6 + t7 + t8 + t9, t10);
    lemma_enc_at_split(s, 0, t1 + t2 + t3 + t4 + t5 + t6 + t7 + t8, t9);
    lemma_enc_at_split(s, 0, t1 + t2 + t3 + t4 + t5 + t6 + t7, t8);
    lemma_enc_at_split(s, 0, t1 + t2 + t3 + t4 + t5 + t6, t7);
    lemma_enc_at_split(s, 0, t1 + t2 + t3 + t4 + t5, t6);
    lemma_enc_at_split(s, 0, t1 + t2 + t3 + t4, t5);
    lemma_enc_at_split(s, 0, t1 + t2 + t3, t4);
    lemma_enc_at_split(s, 0, t1 + t2, t3);
    lemma_enc_at_split(s, 0, t1, t2);
    assert(s.subrange(p_msg_lit(m), p_msg_lit(m) + t3.len() as int)[0] == s[p_msg_lit(m)]);
    assert(s.subrange(p_close(m), p_close(m) + 1)[0] == s[p_close(m)]);
}

/// True when `{"value":` sits at `i`.
fn expect_lit_value(s: &Vec<u8>, i: usize) -> (r: bool)
    requires
        i <= s@.len(),
    ensures
        r == enc_at(s@, i as int, lit_value()),
{
    let r = s.len() - i >= 9 && s[i] == 0x7b && s[i + 1] == 0x22 && s[i + 2] == 0x76 && s[i + 3]
        == 0x61 && s[i + 4] == 0x6c && s[i + 5] == 0x75 && s[i + 6] == 0x65 && s[i + 7] == 0x22
        && s[i + 8] == 0x3a;
    proof {
        if r {
            assert(s@.subrange(i as int, i + 9) =~= lit_value());
        } else if enc_at(s@, i as int, lit_value()) {
            assert forall|k: int| 0 <= k < 9 implies s@[i + k] == lit_value()[k] by {
                assert(s@.subrange(i as int, i + 9)[k] == s@[i + k]);
            }
            assert(false);
        }
    }
    r
}

/// True when the `null` literal sits at `i`.
fn expect_null(s: &Vec<u8>, i: usize) -> (r: bool)
    requires
        i <= s@.len(),
    ensures
        r == enc_at(s@, i as int, lit_null()),
{
    let r = s.len() - i >= 4 && s[i] == 0x6e && s[i + 1] == 0x75 && s[i + 2] == 0x6c && s[i + 3]
        == 0x6c;
    proof {
        if r {
            assert(s@.subrange(i as int, i + 4) =~= lit_null());
        } else if enc_at(s@, i as int, lit_null()) {
            assert forall|k: int| 0 <= k < 4 implies s@[i + k] == lit_null()[k] by {
                assert(s@.subrange(i as int, i + 4)[k] == s@[i + k]);
            }
            assert(false);
        }
    }
    r
}

/// True when `,"message":` sits at `i`.
fn expect_lit_message(s: &Vec<u8>, i: usize) -> (r: bool)
    requires
        i <= s@.len(),
    ensures
        r == enc_at(s@, i as int, lit_message()),
{
    let r = s.len() - i >= 11 && s[i] == 0x2c && s[i + 1] == 0x22 && s[i + 2] == 0x6d && s[i + 3]
        == 0x65 && s[i + 4] == 0x73 && s[i + 5] == 0x73 && s[i + 6] == 0x61 && s[i + 7] == 0x67
        && s[i + 8] == 0x65 && s[i + 9] == 0x22 && s[i + 10] == 0x3a;
    proof {
        if r {
            assert(s@.subrange(i as int, i + 11) =~= lit_message());
        } else if enc_at(s@, i as int, lit_message()) {
            assert forall|k: int| 0 <= k < 11 implies s@[i + k] == lit_message()[k] by {
                assert(s@.subrange(i as int, i + 11)[k] == s@[i + k]);
            }
            assert(false);
        }
    }
    r
}

/// True when `,"level":` sits at `i`.
fn expect_lit_level(s: &Vec<u8>, i: usize) -> (r: bool)
    requires
        i <= s@.len(),
    ensures
        r == enc_at(s@, i as int, lit_level()),
{
    let r = s.len() - i >= 9 && s[i] == 0x2c && s[i + 1] == 0x22 && s[i + 2] == 0x6c && s[i + 3]
        == 0x65 && s[i + 4] == 0x76 && s[i + 5] == 0x65 && s[i + 6] == 0x6c && s[i + 7] == 0x22
        && s[i + 8] == 0x3a;
    proof {
        if r {
            assert(s@.subrange(i as int, i + 9) =~= lit_level());
        } else if enc_at(s@, i as int, lit_level()) {
            assert forall|k: int| 0 <= k < 9 implies s@[i + k] == lit_level()[k] by {
                assert(s@.subrange(i as int, i + 9)[k] == s@[i + k]);
            }
            assert(false);
        }
    }
    r
}

/// True when `,"file":` sits at `i`.
fn expect_lit_file(s: &Vec<u8>, i: usize) -> (r: bool)
    requires
        i <= s@.len(),
    ensures
        r == enc_at(s@, i as int, lit_file()),
{
    let r = s.len() - i >= 8 && s[i] == 0x2c && s[i + 1] == 0x22 && s[i + 2] == 0x66 && s[i + 3]
        == 0x69 && s[i + 4] == 0x6c && s[i + 5] == 0x65 && s[i + 6] == 0x22 && s[i + 7] == 0x3a;
    proof {
        if r {
            assert(s@.subrange(i as int, i + 8) =~= lit_file());
        } else if enc_at(s@, i as int, lit_file()) {
            assert forall|k: int| 0 <= k < 8 implies s@[i + k] == lit_file()[k] by {
                assert(s@.subrange(i as int, i + 8)[k] == s@[i + k]);
            }
            assert(false);
        }
    }
    r
}

/// True when `,"module":` sits at `i`.
fn expect_lit_module(s: &Vec<u8>, i: usize) -> (r: bool)
    requires
        i <= s@.len(),
    ensures
        r == enc_at(s@, i as int, lit_module()),
{
    let r = s.len() - i >= 10 && s[i] == 0x2c && s[i + 1] == 0x22 && s[i + 2] == 0x6d && s[i + 3]
        == 0x6f && s[i + 4] == 0x64 && s[i + 5] == 0x75 && s[i + 6] == 0x6c && s[i + 7] == 0x65
        && s[i + 8] == 0x22 && s[i + 9] == 0x3a;
    proof {
        if r {
            assert(s@.subrange(i as int, i + 10) =~= lit_module());
        } else if enc_at(s@, i as int, lit_module()) {
            assert forall|k: int| 0 <= k < 10 implies s@[i + k] == lit_module()[k] by {
                assert(s@.subrange(i as int, i + 10)[k] == s@[i + k]);
            }
            assert(false);
        }
    }
    r
}

/// True when `,"line":` sits at `i`.
fn expect_lit_line(s: &Vec<u8>, i: usize) -> (r: bool)
    requires
        i <= s@.len(),
    ensures
        r == enc_at(s@, i as int, lit_line()),
{
    let r = s.len() - i >= 8 && s[i] == 0x2c && s[i + 1] == 0x22 && s[i + 2] == 0x6c && s[i + 3]
        == 0x69 && s[i + 4] == 0x6e && s[i + 5] == 0x65 && s[i + 6] == 0x22 && s[i + 7] == 0x3a;
    proof {
        if r {
            assert(s@.subrange(i as int, i + 8) =~= lit_line());
        } else if enc_at(s@, i as int, lit_line()) {
            assert forall|k: int| 0 <= k < 8 implies s@[i + k] == lit_line()[k] by {
                assert(s@.subrange(i as int, i + 8)[k] == s@[i + k]);
            }
            assert(false);
        }
    }
    r
}

/// The bytes of a quoted level name occurrence.
proof fn lemma_level_bytes(s: Seq<u8>, i: int, l: Level)
    requires
        enc_at(s, i, enc_str(level_text(l))),
    ensures
        match l {
            Level::Error => i + 7 <= s.len() && s[i] == 0x22u8 && s[i + 1] == 0x45u8 && s[i + 2]
                == 0x72u8 && s[i + 3] == 0x72u8 && s[i + 4] == 0x6fu8 && s[i + 5] == 0x72u8 && s[i
                + 6] == 0x22u8 && enc_str(level_text(l)).len() == 7,
            Level::Warn => i + 6 <= s.len() && s[i] == 0x22u8 && s[i + 1] == 0x57u8 && s[i + 2]
                == 0x61u8 && s[i + 3] == 0x72u8 && s[i + 4] == 0x6eu8 && s[i + 5] == 0x22u8
                && enc_str(level_text(l)).len() == 6,
            Level::Info => i + 6 <= s.len() && s[i] == 0x22u8 && s[i + 1] == 0x49u8 && s[i + 2]
                == 0x6eu8 && s[i + 3] == 0x66u8 && s[i + 4] == 0x6fu8 && s[i + 5] == 0x22u8
                && enc_str(level_text(l)).len() == 6,
            Level::Debug => i + 7 <= s.len() && s[i] == 0x22u8 && s[i + 1] == 0x44u8 && s[i + 2]
                == 0x65u8 && s[i + 3] == 0x62u8 && s[i + 4] == 0x75u8 && s[i + 5] == 0x67u8 && s[i
                + 6] == 0x22u8 && enc_str(level_text(l)).len() == 7,
            Level::Trace => i + 7 <= s.len() && s[i] == 0x22u8 && s[i + 1] == 0x54u8 && s[i + 2]
                == 0x72u8 && s[i + 3] == 0x61u8 && s[i + 4] == 0x63u8 && s[i + 5] == 0x65u8 && s[i
                + 6] == 0x22u8 && enc_str(level_text(l)).len() == 7,
        },
{
    lemma_level_text_plain(l);
    lemma_enc_bytes_plain(level_text(l));
    assert(enc_str(level_text(l)) =~= seq![0x22u8] + level_text(l) + seq![0x22u8]);
    assert forall|k: int|
        0 <= k < enc_str(level_text(l)).len() implies s[i + k] == enc_str(level_text(l))[k] by {
        assert(s.subrange(i, i + enc_str(level_text(l)).len() as int)[k] == s[i + k]);
    }
    match l {
        Level::Error => {
            assert(enc_str(level_text(l)) =~= seq![0x22u8, 0x45u8, 0x72u8, 0x72u8, 0x6fu8, 0x72u8, 0x22u8]);
            assert(s[i + 0] == enc_str(level_text(l))[0]);
            assert(s[i + 1] == enc_str(level_text(l))[1]);
            assert(s[i + 2] == enc_str(level_text(l))[2]);
            assert(s[i + 3] == enc_str(level_text(l))[3]);
            assert(s[i + 4] == enc_str(level_text(l))[4]);
            assert(s[i + 5] == enc_str(level_text(l))[5]);
            assert(s[i + 6] == enc_str(level_text(l))[6]);
        },
        Level::Warn => {
            assert(enc_str(level_text(l)) =~= seq![0x22u8, 0x57u8, 0x61u8, 0x72u8, 0x6eu8, 0x22u8]);
            assert(s[i + 0] == enc_str(level_text(l))[0]);
            assert(s[i + 1] == enc_str(level_text(l))[1]);
            assert(s[i + 2] == enc_str(level_text(l))[2]);
            assert(s[i + 3] == enc_str(level_text(l))[3]);
            assert(s[i + 4] == enc_str(level_text(l))[4]);
            assert(s[i + 5] == enc_str(level_text(l))[5]);
        },
        Level::Info => {
            assert(enc_str(level_text(l)) =~= seq![0x22u8, 0x49u8, 0x6eu8, 0x66u8, 0x6fu8, 0x22u8]);
            assert(s[i + 0] == enc_str(level_text(l))[0]);
            assert(s[i + 1] == enc_str(level_text(l))[1]);
            assert(s[i + 2] == enc_str(level_text(l))[2]);
            assert(s[i + 3] == enc_str(level_text(l))[3]);
            assert(s[i + 4] == enc_str(level_text(l))[4]);
            assert(s[i + 5] == enc_str(level_text(l))[5]);
        },
        Level::Debug => {
            assert(enc_str(level_text(l)) =~= seq![0x22u8, 0x44u8, 0x65u8, 0x62u8, 0x75u8, 0x67u8, 0x22u8]);
            assert(s[i + 0] == enc_str(level_text(l))[0]);
            assert(s[i + 1] == enc_str(level_text(l))[1]);
            assert(s[i + 2] == enc_str(level_text(l))[2]);
            assert(s[i + 3] == enc_str(level_text(l))[3]);
            assert(s[i + 4] == enc_str(level_text(l))[4]);
            assert(s[i + 5] == enc_str(level_text(l))[5]);
            assert(s[i + 6] == enc_str(level_text(l))[6]);
        },
        Level::Trace => {
            assert(enc_str(level_text(l)) =~= seq![0x22u8, 0x54u8, 0x72u8, 0x61u8, 0x63u8, 0x65u8, 0x22u8]);
            assert(s[i + 0] == enc_str(level_text(l))[0]);
            assert(s[i + 1] == enc_str(level_text(l))[1]);
            assert(s[i + 2] == enc_str(level_text(l))[2]);
            assert(s[i + 3] == enc_str(level_text(l))[3]);
            assert(s[i + 4] == enc_str(level_text(l))[4]);
            assert(s[i + 5] == enc_str(level_text(l))[5]);
            assert(s[i + 6] == enc_str(level_text(l))[6]);
        },
    }
}

/// Parse a quoted level name at `i`.
#[verifier::rlimit(100)]
fn parse_level(s: &Vec<u8>, i: usize) -> (r: Option<(Level, usize)>)
    requires
        i <= s@.len(),
    ensures
        match r {
            Option::Some((l, n)) => n == i + enc_str(level_text(l)).len() && enc_at(
                s@,
                i as int,
                enc_str(level_text(l)),
            ),
            Option::None => true,
        },
        forall|l: Level| #![trigger level_text(l)]
            enc_at(s@, i as int, enc_str(level_text(l))) ==> (r matches Option::Some((l2, n)) && l2
                == l && n == i + enc_str(level_text(l)).len()),
{
    if s.len() - i >= 7 && s[i] == 0x22 && s[i + 1] == 0x45 && s[i + 2] == 0x72 && s[i + 3] == 0x72
        && s[i + 4] == 0x6f && s[i + 5] == 0x72 && s[i + 6] == 0x22 {
        proof {
            lemma_level_text_plain(Level::Error);
            lemma_enc_bytes_plain(level_text(Level::Error));
            assert(s@.subrange(i as int, i + 7) =~= enc_str(level_text(Level::Error)));
            assert forall|l: Level| #![trigger level_text(l)]
                enc_at(s@, i as int, enc_str(level_text(l))) implies l == Level::Error by {
                lemma_level_bytes(s@, i as int, l);
                match l {
                    Level::Error => {},
                    Level::Warn => {
                        assert(false);
                    },
                    Level::Info => {
                        assert(false);
                    },
                    Level::Debug => {
                        assert(false);
                    },
                    Level::Trace => {
                        assert(false);
                    },
                }
            }
        }
        return Option::Some((Level::Error, i + 7));
    }
    if s.len() - i >= 6 && s[i] == 0x22 && s[i + 1] == 0x57 && s[i + 2] == 0x61 && s[i + 3] == 0x72
        && s[i + 4] == 0x6e && s[i + 5] == 0x22 {
        proof {
            lemma_level_text_plain(Level::Warn);
            lemma_enc_bytes_plain(level_text(Level::Warn));
            assert(s@.subrange(i as int, i + 6) =~= enc_str(level_text(Level::Warn)));
            assert forall|l: Level| #![trigger level_text(l)]
                enc_at(s@, i as int, enc_str(level_text(l))) implies l == Level::Warn by {
                lemma_level_bytes(s@, i as int, l);
                match l {
                    Level::Warn => {},
                    Level::Error => {
                        assert(false);
                    },
                    Level::Info => {
                        assert(false);
                    },
                    Level::Debug => {
                        assert(false);
                    },
                    Level::Trace => {
                        assert(false);
                    },
                }
            }
        }
        return Option::Some((Level::Warn, i + 6));
    }
    if s.len() - i >= 6 && s[i] == 0x22 && s[i + 1] == 0x49 && s[i + 2] == 0x6e && s[i + 3] == 0x66
        && s[i + 4] == 0x6f && s[i + 5] == 0x22 {
        proof {
            lemma_level_text_plain(Level::Info);
            lemma_enc_bytes_plain(level_text(Level::Info));
            assert(s@.subrange(i as int, i + 6) =~= enc_str(level_text(Level::Info)));
            assert forall|l: Level| #![trigger level_text(l)]
                enc_at(s@, i as int, enc_str(level_text(l))) implies l == Level::Info by {
                lemma_level_bytes(s@, i as int, l);
                match l {
                    Level::Info => {},
                    Level::Error => {
                        assert(false);
                    },
                    Level::Warn => {
                        assert(false);
                    },
                    Level::Debug => {
                        assert(false);
                    },
                    Level::Trace => {
                        assert(false);
                    },
                }
            }
        }
        return Option::Some((Level::Info, i + 6));
    }
    if s.len() - i >= 7 && s[i] == 0x22 && s[i + 1] == 0x44 && s[i + 2] == 0x65 && s[i + 3] == 0x62
        && s[i + 4] == 0x75 && s[i + 5] == 0x67 && s[i + 6] == 0x22 {
        proof {
            lemma_level_text_plain(Level::Debug);
            lemma_enc_bytes_plain(level_text(Level::Debug));
            assert(s@.subrange(i as int, i + 7) =~= enc_str(level_text(Level::Debug)));
            assert forall|l: Level| #![trigger level_text(l)]
                enc_at(s@, i as int, enc_str(level_text(l))) implies l == Level::Debug by {
                lemma_level_bytes(s@, i as int, l);
                match l {
                    Level::Debug => {},
                    Level::Error => {
                        assert(false);
                    },
                    Level::Warn => {
                        assert(false);
                    },
                    Level::Info => {
                        assert(false);
                    },
                    Level::Trace => {
                        assert(false);
                    },
                }
            }
        }
        return Option::Some((Level::Debug, i + 7));
    }
    if s.len() - i >= 7 && s[i] == 0x22 && s[i + 1] == 0x54 && s[i + 2] == 0x72 && s[i + 3] == 0x61
        && s[i + 4] == 0x63 && s[i + 5] == 0x65 && s[i + 6] == 0x22 {
        proof {
            lemma_level_text_plain(Level::Trace);
            lemma_enc_bytes_plain(level_text(Level::Trace));
            assert(s@.subrange(i as int, i + 7) =~= enc_str(level_text(Level::Trace)));
            assert forall|l: Level| #![trigger level_text(l)]
                enc_at(s@, i as int, enc_str(level_text(l))) implies l == Level::Trace by {
                lemma_level_bytes(s@, i as int, l);
                match l {
                    Level::Trace => {},
                    Level::Error => {
                        assert(false);
                    },
                    Level::Warn => {
                        assert(false);
                    },
                    Level::Info => {
                        assert(false);
                    },
                    Level::Debug => {
                        assert(false);
                    },
                }
            }
        }
        return Option::Some((Level::Trace, i + 7));
    }
    proof {
        assert forall|l: Level| #![trigger level_text(l)]
            !enc_at(s@, i as int, enc_str(level_text(l))) by {
            if enc_at(s@, i as int, enc_str(level_text(l))) {
                lemma_level_bytes(s@, i as int, l);
                match l {
                    Level::Error => {
                        assert(false);
                    },
                    Level::Warn => {
                        assert(false);
                    },
                    Level::Info => {
                        assert(false);
                    },
                    Level::Debug => {
                        assert(false);
                    },
                    Level::Trace => {
                        assert(false);
                    },
                }
            }
        }
    }
    Option::None
}

/// Parse the decimal digits of a 32-bit line number at `i`.
#[verifier::loop_isolation(false)]
#[verifier::rlimit(100)]
fn parse_line_number(s: &Vec<u8>, i: usize) -> (r: Option<(u32, usize)>)
    requires
        i <= s@.len(),
    ensures
        match r {
            Option::Some((v, n)) => {
                &&& i < n <= s@.len()
                &&& s@.subrange(i as int, n as int) == dec_digits(v as nat)
            },
            Option::None => true,
        },
        forall|v: u32| #![trigger dec_digits(v as nat)]
            (enc_at(s@, i as int, dec_digits(v as nat)) && (i + dec_digits(v as nat).len()
                == s@.len() || !(0x30 <= s@[i + dec_digits(v as nat).len()] <= 0x39))) ==> (
            r matches Option::Some((v2, n)) && v2 == v && n == i + dec_digits(v as nat).len()),
{
    let mut n2: usize = i;
    while n2 < s.len() && 0x30 <= s[n2] && s[n2] <= 0x39
        invariant
            i <= n2 <= s@.len(),
            forall|k: int| i <= k < n2 ==> 0x30 <= #[trigger] s@[k] <= 0x39,
        decreases s@.len() - n2,
    {
        n2 = n2 + 1;
    }
    proof {
        assert forall|v: u32| #![trigger dec_digits(v as nat)]
            (enc_at(s@, i as int, dec_digits(v as nat)) && (i + dec_digits(v as nat).len()
                == s@.len() || !(0x30 <= s@[i + dec_digits(v as nat).len()] <= 0x39))) implies (
        n2 == i + dec_digits(v as nat).len() && s@.subrange(i as int, n2 as int) == dec_digits(
            v as nat,
        ) && val_digits(s@.subrange(i as int, n2 as int)) == v && n2 - i <= 10 && (n2 - i > 1
            ==> s@[i as int] != 0x30)) by {
            let ds = dec_digits(v as nat);
            lemma_dec_digits_shape(v as nat);
            assert forall|q: int| 0 <= q < ds.len() implies s@[i + q] == ds[q] by {
                assert(s@.subrange(i as int, i + ds.len() as int)[q] == s@[i + q]);
            }
            if n2 < i + ds.len() {
                assert(0x30 <= ds[n2 - i] <= 0x39);
                assert(false);
            }
            if n2 > i + ds.len() {
                assert(0x30 <= s@[i + ds.len()] <= 0x39);
                assert(false);
            }
            assert(s@.subrange(i as int, n2 as int) =~= ds);
            lemma_val_dec(v as nat);
            lemma_pow10_ten();
            lemma_dec_len(v as nat, 10);
        }
    }
    if n2 == i {
        return Option::None;
    }
    if n2 - i > 1 && s[i] == 0x30 {
        return Option::None;
    }
    if n2 - i > 10 {
        return Option::None;
    }
    let mut acc: u64 = 0;
    let mut k: usize = i;
    proof {
        assert(s@.subrange(i as int, i as int) =~= Seq::<u8>::empty());
        lemma_pow10_ten();
    }
    while k < n2
        invariant
            i <= k <= n2 <= s@.len(),
            n2 - i <= 10,
            n2 > i,
            forall|q: int| i <= q < n2 ==> 0x30 <= #[trigger] s@[q] <= 0x39,
            acc == val_digits(s@.subrange(i as int, k as int)),
            acc < pow10((k - i) as nat),
            pow10(10) == 10_000_000_000,
        decreases n2 - k,
    {
        let d = s[k];
        proof {
            let pre = s@.subrange(i as int, k as int);
            let post = s@.subrange(i as int, k + 1);
            assert(post.subrange(0, post.len() - 1) =~= pre);
            assert(post.last() == s@[k as int]);
            assert(pow10(((k + 1) - i) as nat) == 10 * pow10((k - i) as nat));
            assert(acc * 10 + (d - 0x30) < pow10(((k + 1) - i) as nat)) by (nonlinear_arith)
                requires
                    acc < pow10((k - i) as nat) && d - 0x30 < 10 && pow10(((k + 1) - i) as nat)
                        == 10 * pow10((k - i) as nat),
            ;
            assert(pow10(((k + 1) - i) as nat) <= pow10(10)) by {
                lemma_pow10_mono(((k + 1) - i) as nat, 10);
            }
        }
        acc = acc * 10 + ((d - 0x30) as u64);
        k = k + 1;
    }
    if acc > 0xFFFF_FFFF {
        return Option::None;
    }
    let v = acc as u32;
    proof {
        let run = s@.subrange(i as int, n2 as int);
        lemma_dec_val(run);
        assert(dec_digits(v as nat) == run);
    }
    Option::Some((v, n2))
}

/// The abstract value of an optional payload.
pub open spec fn opt_json_model(v: Option<Json>) -> Option<JsonView> {
    match v {
        Option::Some(j) => Option::Some(json_model(j)),
        Option::None => Option::None,
    }
}

/// Offset of the `,"message":` literal, from the payload alone.
pub open spec fn q_msg_lit(value: Option<JsonView>) -> int {
    9 + enc_value_field(value).len() as int
}

/// Offset of the message string, from the payload alone.
pub open spec fn q_msg(value: Option<JsonView>) -> int {
    q_msg_lit(value) + 11
}

/// Offset of the `,"level":` literal.
pub open spec fn q_level_lit(value: Option<JsonView>, msg: Seq<u8>) -> int {
    q_msg(value) + enc_str(msg).len()
}

/// Offset of the level string.
pub open spec fn q_level(value: Option<JsonView>, msg: Seq<u8>) -> int {
    q_level_lit(value, msg) + 9
}

/// A record's wire form assembles from its pieces at their offsets.
proof fn lemma_record_join(s: Seq<u8>, mv: RecordView)
    requires
        enc_at(s, 0, lit_value()),
        enc_at(s, p_value(), enc_value_field(mv.value)),
        enc_at(s, p_msg_lit(mv), lit_message()),
        enc_at(s, p_msg(mv), enc_str(mv.message)),
        enc_at(s, p_level_lit(mv), lit_level()),
        enc_at(s, p_level(mv), enc_str(level_text(mv.level))),
        enc_at(s, p_file_lit(mv), lit_file()),
        enc_at(s, p_file(mv), enc_opt_str(mv.file)),
        enc_at(s, p_module_lit(mv), lit_module()),
        enc_at(s, p_module(mv), enc_opt_str(mv.module)),
        enc_at(s, p_line_lit(mv), lit_line()),
        enc_at(s, p_line(mv), enc_line_field(mv.line)),
        enc_at(s, p_close(mv), seq![0x7du8]),
        s.len() == p_close(mv) + 1,
    ensures
        enc_record(mv) == s,
{
    let t1 = lit_value();
    let t2 = enc_value_field(mv.value);
    let t3 = lit_message();
    let t4 = enc_str(mv.message);
    let t5 = lit_level();
    let t6 = enc_str(level_text(mv.level));
    let t7 = lit_file();
    let t8 = enc_opt_str(mv.file);
    let t9 = lit_module();
    let t10 = enc_opt_str(mv.module);
    let t11 = lit_line();
    let t12 = enc_line_field(mv.line);
    lemma_enc_at_join(s, 0, t1, t2);
    lemma_enc_at_join(s, 0, t1 + t2, t3);
    lemma_enc_at_join(s, 0, t1 + t2 + t3, t4);
    lemma_enc_at_join(s, 0, t1 + t2 + t3 + t4, t5);
    lemma_enc_at_join(s, 0, t1 + t2 + t3 + t4 + t5, t6);
    lemma_enc_at_join(s, 0, t1 + t2 + t3 + t4 + t5 + t6, t7);
    lemma_enc_at_join(s, 0, t1 + t2 + t3 + t4 + t5 + t6 + t7, t8);
    lemma_enc_at_join(s, 0, t1 + t2 + t3 + t4 + t5 + t6 + t7 + t8, t9);
    lemma_enc_at_join(s, 0, t1 + t2 + t3 + t4 + t5 + t6 + t7 + t8 + t9, t10);
    lemma_enc_at_join(s, 0, t1 + t2 + t3 + t4 + t5 + t6 + t7 + t8 + t9 + t10, t11);
    lemma_enc_at_join(s, 0, t1 + t2 + t3 + t4 + t5 + t6 + t7 + t8 + t9 + t10 + t11, t12);
    lemma_enc_at_join(
        s,
        0,
        t1 + t2 + t3 + t4 + t5 + t6 + t7 + t8 + t9 + t10 + t11 + t12,
        seq![0x7du8],
    );
    assert(s.subrange(0, s.len() as int) =~= s);
}

/// The abstract value of an optional byte-string field.
pub open spec fn opt_bytes_model(v: Option<Vec<u8>>) -> Option<Seq<u8>> {
    match v {
        Option::Some(c) => Option::Some(c@),
        Option::None => Option::None,
    }
}

/// Parse an optional string field at `i`: the `null` literal or a
/// quoted string.
#[verifier::loop_isolation(false)]
#[verifier::rlimit(100)]
fn parse_opt_str(s: &Vec<u8>, i: usize) -> (r: Option<(Option<Vec<u8>>, usize)>)
    requires
        i <= s@.len(),
    ensures
        match r {
            Option::Some((f, n)) => {
                &&& i < n <= s@.len()
                &&& enc_at(s@, i as int, enc_opt_str(opt_bytes_model(f)))
                &&& n == i + enc_opt_str(opt_bytes_model(f)).len()
            },
            Option::None => true,
        },
        forall|c: Option<Seq<u8>>| #![trigger enc_opt_str(c)]
            enc_at(s@, i as int, enc_opt_str(c)) ==> (r matches Option::Some((f, n))
                && opt_bytes_model(f) == c && n == i + enc_opt_str(c).len()),
{
    proof {
        assert forall|c: Option<Seq<u8>>| #![trigger enc_opt_str(c)]
            enc_at(s@, i as int, enc_opt_str(c)) implies (match c {
            Option::None => enc_at(s@, i as int, lit_null()),
            Option::Some(cc) => i < s@.len() && s@[i as int] == 0x22u8 && !enc_at(
                s@,
                i as int,
                lit_null(),
            ) && enc_at(s@, i + 1, enc_bytes(cc) + seq![0x22u8]),
        }) by {
            match c {
                Option::None => {
                },
                Option::Some(cc) => {
                    assert(s@.subrange(i as int, i + enc_str(cc).len() as int)[0] == s@[i
                        as int]);
                    assert(enc_str(cc) =~= seq![0x22u8] + (enc_bytes(cc) + seq![0x22u8]));
                    lemma_enc_at_split(s@, i as int, seq![0x22u8], enc_bytes(cc) + seq![0x22u8]);
                    if enc_at(s@, i as int, lit_null()) {
                        assert(s@.subrange(i as int, i + 4)[0] == s@[i as int]);
                        assert(false);
                    }
                },
            }
        }
    }
    let total = s.len();
    if expect_null(s, i) {
        proof {
            assert(enc_opt_str(Option::None) == lit_null());
        }
        return Option::Some((Option::None, i + 4));
    }
    if i >= s.len() || s[i] != 0x22 {
        proof {
            assert forall|c: Option<Seq<u8>>| #![trigger enc_opt_str(c)]
                !enc_at(s@, i as int, enc_opt_str(c)) by {
                if enc_at(s@, i as int, enc_opt_str(c)) {
                    match c {
                        Option::None => {
                            assert(s@.subrange(i as int, i + 4)[0] == s@[i as int]);
                            assert(false);
                        },
                        Option::Some(cc) => {
                            assert(false);
                        },
                    }
                }
            }
        }
        return Option::None;
    }
    match parse_string_body(s, i + 1) {
        Option::None => {
            proof {
                assert forall|c: Option<Seq<u8>>| #![trigger enc_opt_str(c)]
                    !enc_at(s@, i as int, enc_opt_str(c)) by {
                    if enc_at(s@, i as int, enc_opt_str(c)) {
                        match c {
                            Option::None => {
                                assert(s@.subrange(i as int, i + 4)[0] == s@[i as int]);
                                assert(false);
                            },
                            Option::Some(cc) => {
                                assert(false);
                            },
                        }
                    }
                }
            }
            return Option::None;
        },
        Option::Some((c0, n0)) => {
            proof {
                assert(s@.subrange(i as int, n0 as int) =~= enc_str(c0@)) by {
                    assert(s@.subrange(i + 1, n0 as int) == enc_bytes(c0@) + seq![0x22u8]);
                    assert forall|k: int|
                        0 <= k < n0 - i implies s@.subrange(i as int, n0 as int)[k] == enc_str(
                        c0@,
                    )[k] by {
                        assert(s@.subrange(i as int, n0 as int)[k] == s@[i + k]);
                        if k > 0 {
                            assert(enc_str(c0@)[k] == (enc_bytes(c0@) + seq![0x22u8])[k - 1]);
                            assert(s@.subrange(i + 1, n0 as int)[k - 1] == s@[i + 1 + (k - 1)]);
                        }
                    }
                }
            }
            return Option::Some((Option::Some(c0), n0));
        },
    }
}

/// A canonical payload-field encoding sits at `i`: the `null` literal
/// for an absent payload, or the canonical encoding of a well-formed,
/// non-null payload with its number-follow condition.
pub open spec fn value_field_at(s: Seq<u8>, i: int, c: Option<JsonView>) -> bool {
    match c {
        Option::None => enc_at(s, i, lit_null()),
        Option::Some(jv) => !(jv is Null) && value_at(s, i, jv),
    }
}

/// Parse the payload field at `i`: the `null` literal or one value.
#[verifier::loop_isolation(false)]
#[verifier::rlimit(100)]
fn parse_value_field(s: &Vec<u8>, i: usize) -> (r: Option<(Option<Json>, usize)>)
    requires
        i <= s@.len(),
    ensures
        match r {
            Option::Some((v, n)) => {
                &&& i < n <= s@.len()
                &&& (match v {
                    Option::Some(j) => json_wf(json_model(j)) && !(json_model(j) is Null),
                    Option::None => true,
                })
                &&& enc_at(s@, i as int, enc_value_field(opt_json_model(v)))
                &&& n == i + enc_value_field(opt_json_model(v)).len()
            },
            Option::None => true,
        },
        forall|c: Option<JsonView>| #![trigger enc_value_field(c)]
            value_field_at(s@, i as int, c) ==> (r matches Option::Some((v, n))
                && opt_json_model(v) == c && n == i + enc_value_field(c).len()),
{
    let total = s.len();
    if expect_null(s, i) {
        proof {
            assert forall|c: Option<JsonView>| #![trigger enc_value_field(c)]
                value_field_at(s@, i as int, c) implies (opt_json_model(
                Option::<Json>::None,
            ) == c && i + 4 == i + enc_value_field(c).len()) by {
                match c {
                    Option::None => {
                    },
                    Option::Some(jv) => {
                        lemma_enc_json_first(jv);
                        assert(s@.subrange(i as int, i + 4)[0] == s@[i as int]);
                        assert(s@.subrange(i as int, i + enc_json(jv).len() as int)[0] == s@[i
                            as int]);
                        assert(false);
                    },
                }
            }
        }
        return Option::Some((Option::None, i + 4));
    }
    match parse_value(s, i) {
        Option::None => {
            proof {
                assert forall|c: Option<JsonView>| #![trigger enc_value_field(c)]
                    !value_field_at(s@, i as int, c) by {
                    if value_field_at(s@, i as int, c) {
                        match c {
                            Option::None => {
                                assert(false);
                            },
                            Option::Some(jv) => {
                                assert(false);
                            },
                        }
                    }
                }
            }
            return Option::None;
        },
        Option::Some((j, n)) => {
            proof {
                if json_model(j) is Null {
                    assert(enc_json(json_model(j)) == lit_null());
                    assert(enc_at(s@, i as int, lit_null()));
                    assert(false);
                }
            }
            return Option::Some((Option::Some(j), n));
        },
    }
}

/// Parse one quoted string field at `i`.
#[verifier::loop_isolation(false)]
#[verifier::rlimit(100)]
fn parse_str_field(s: &Vec<u8>, i: usize) -> (r: Option<(Vec<u8>, usize)>)
    requires
        i <= s@.len(),
    ensures
        match r {
            Option::Some((c, n)) => {
                &&& i < n <= s@.len()
                &&& enc_at(s@, i as int, enc_str(c@))
                &&& n == i + enc_str(c@).len()
            },
            Option::None => true,
        },
        forall|cc: Seq<u8>| #![trigger enc_str(cc)]
            enc_at(s@, i as int, enc_str(cc)) ==> (r matches Option::Some((c, n)) && c@ == cc && n
                == i + enc_str(cc).len()),
{
    proof {
        assert forall|cc: Seq<u8>| #![trigger enc_str(cc)]
            enc_at(s@, i as int, enc_str(cc)) implies (i < s@.len() && s@[i as int] == 0x22u8
            && enc_at(s@, i + 1, enc_bytes(cc) + seq![0x22u8])) by {
            assert(s@.subrange(i as int, i + enc_str(cc).len() as int)[0] == s@[i as int]);
            assert(enc_str(cc) =~= seq![0x22u8] + (enc_bytes(cc) + seq![0x22u8]));
            lemma_enc_at_split(s@, i as int, seq![0x22u8], enc_bytes(cc) + seq![0x22u8]);
        }
    }
    if i >= s.len() || s[i] != 0x22 {
        return Option::None;
    }
    match parse_string_body(s, i + 1) {
        Option::None => {
            proof {
                assert forall|cc: Seq<u8>| #![trigger enc_str(cc)]
                    !enc_at(s@, i as int, enc_str(cc)) by {
                    if enc_at(s@, i as int, enc_str(cc)) {
                        assert(false);
                    }
                }
            }
            return Option::None;
        },
        Option::Some((c0, n0)) => {
            proof {
                assert(s@.subrange(i as int, n0 as int) =~= enc_str(c0@)) by {
                    assert(s@.subrange(i + 1, n0 as int) == enc_bytes(c0@) + seq![0x22u8]);
                    assert forall|k: int|
                        0 <= k < n0 - i implies s@.subrange(i as int, n0 as int)[k] == enc_str(
                        c0@,
                    )[k] by {
                        assert(s@.subrange(i as int, n0 as int)[k] == s@[i + k]);
                        if k > 0 {
                            assert(enc_str(c0@)[k] == (enc_bytes(c0@) + seq![0x22u8])[k - 1]);
                            assert(s@.subrange(i + 1, n0 as int)[k - 1] == s@[i + 1 + (k - 1)]);
                        }
                    }
                }
            }
            return Option::Some((c0, n0));
        },
    }
}

/// Decode the head of a wire message: the opening literal, the
/// payload field, the message and the level. Returns those fields and
/// the position just past the level string.
#[verifier::loop_isolation(false)]
#[verifier::rlimit(100)]
fn decode_head(s: &Vec<u8>) -> (r: Option<(Option<Json>, Vec<u8>, Level, usize)>)
    ensures
        match r {
            Option::Some((value, message, level, n)) => {
                &&& n <= s@.len()
                &&& (match value {
                    Option::Some(j) => json_wf(json_model(j)) && !(json_model(j) is Null),
                    Option::None => true,
                })
                &&& enc_at(s@, 0, lit_value())
                &&& enc_at(s@, 9, enc_value_field(opt_json_model(value)))
                &&& enc_at(s@, q_msg_lit(opt_json_model(value)), lit_message())
                &&& enc_at(s@, q_msg(opt_json_model(value)), enc_str(message@))
                &&& enc_at(s@, q_level_lit(opt_json_model(value), message@), lit_level())
                &&& enc_at(
                    s@,
                    q_level(opt_json_model(value), message@),
                    enc_str(level_text(level)),
                )
                &&& n == q_level(opt_json_model(value), message@) + enc_str(
                    level_text(level),
                ).len()
            },
            Option::None => true,
        },
        forall|m: RecordView| #![trigger enc_record(m)]
            rec_hyp(s@, m) ==> (r matches Option::Some((value, message, level, n)) && (
            match m.value {
                Option::None => value is None,
                Option::Some(jv) => value matches Option::Some(j2) && json_model(j2) == jv,
            }) && message@ == m.message && level == m.level && n == p_file_lit(m)),
{
    if !expect_lit_value(s, 0) {
        proof {
            assert forall|m: RecordView| #![trigger enc_record(m)] !rec_hyp(s@, m) by {
                if rec_hyp(s@, m) {
                    lemma_record_split(s@, m);
                }
            }
        }
        return Option::None;
    }
    let value: Option<Json>;
    let idx1: usize;
    match parse_value_field(s, 9) {
        Option::None => {
            proof {
                assert forall|m: RecordView| #![trigger enc_record(m)] !rec_hyp(s@, m) by {
                    if rec_hyp(s@, m) {
                        lemma_record_split(s@, m);
                        match m.value {
                            Option::Some(jv) => {
                                assert(value_at(s@, 9, jv)) by {
                                    assert(s@[p_msg_lit(m)] == 0x2cu8);
                                }
                                assert(value_field_at(s@, 9, m.value));
                                assert(false);
                            },
                            Option::None => {
                                assert(value_field_at(s@, 9, m.value));
                                assert(false);
                            },
                        }
                    }
                }
            }
            return Option::None;
        },
        Option::Some((v0, n1)) => {
            value = v0;
            idx1 = n1;
        },
    }
    proof {
        assert forall|m: RecordView| #![trigger enc_record(m)]
            rec_hyp(s@, m) implies (idx1 == p_msg_lit(m) && opt_json_model(value) == m.value) by {
            lemma_record_split(s@, m);
            match m.value {
                Option::Some(jv) => {
                    assert(value_at(s@, 9, jv)) by {
                        assert(s@[p_msg_lit(m)] == 0x2cu8);
                    }
                    assert(value_field_at(s@, 9, m.value));
                },
                Option::None => {
                    assert(value_field_at(s@, 9, m.value));
                },
            }
        }
    }
    if !expect_lit_message(s, if idx1 <= s.len() {
        idx1
    } else {
        s.len()
    }) || idx1 > s.len() {
        proof {
            assert forall|m: RecordView| #![trigger enc_record(m)] !rec_hyp(s@, m) by {
                if rec_hyp(s@, m) {
                    lemma_record_split(s@, m);
                }
            }
        }
        return Option::None;
    }
    let idx2 = idx1 + 11;
    let message: Vec<u8>;
    let idx3: usize;
    match parse_str_field(s, if idx2 <= s.len() {
        idx2
    } else {
        s.len()
    }) {
        Option::None => {
            proof {
                assert forall|m: RecordView| #![trigger enc_record(m)] !rec_hyp(s@, m) by {
                    if rec_hyp(s@, m) {
                        lemma_record_split(s@, m);
                        assert(enc_at(s@, p_msg(m), enc_str(m.message)));
                        assert(false);
                    }
                }
            }
            return Option::None;
        },
        Option::Some((c0, n3)) => {
            proof {
                if idx2 > s.len() {
                    assert(enc_at(s@, s@.len() as int, enc_str(c0@)));
                    assert(enc_str(c0@).len() > 0);
                    assert(false);
                }
            }
            message = c0;
            idx3 = n3;
        },
    }
    proof {
        assert forall|m: RecordView| #![trigger enc_record(m)]
            rec_hyp(s@, m) implies (idx3 == p_level_lit(m) && message@ == m.message) by {
            lemma_record_split(s@, m);
            assert(enc_at(s@, p_msg(m), enc_str(m.message)));
        }
    }
    if !expect_lit_level(s, if idx3 <= s.len() {
        idx3
    } else {
        s.len()
    }) || idx3 > s.len() {
        proof {
            assert forall|m: RecordView| #![trigger enc_record(m)] !rec_hyp(s@, m) by {
                if rec_hyp(s@, m) {
                    lemma_record_split(s@, m);
                }
            }
        }
        return Option::None;
    }
    let idx4 = idx3 + 9;
    let level: Level;
    let idx5: usize;
    match parse_level(s, if idx4 <= s.len() {
        idx4
    } else {
        s.len()
    }) {
        Option::None => {
            proof {
                assert forall|m: RecordView| #![trigger enc_record(m)] !rec_hyp(s@, m) by {
                    if rec_hyp(s@, m) {
                        lemma_record_split(s@, m);
                        assert(idx4 <= s.len());
                        assert(level_text(m.level) == level_text(m.level));
                        assert(false);
                    }
                }
            }
            return Option::None;
        },
        Option::Some((l, n5)) => {
            proof {
                if idx4 > s.len() {
                    assert(enc_at(s@, s@.len() as int, enc_str(level_text(l))));
                    assert(enc_str(level_text(l)).len() > 0);
                    assert(false);
                }
            }
            level = l;
            idx5 = n5;
        },
    }
    proof {
        assert forall|m: RecordView| #![trigger enc_record(m)]
            rec_hyp(s@, m) implies (idx5 == p_file_lit(m) && level == m.level) by {
            lemma_record_split(s@, m);
            assert(level_text(m.level) == level_text(m.level));
        }
        assert(idx1 == q_msg_lit(opt_json_model(value)));
    }
    Option::Some((value, message, level, idx5))
}

/// Decode a wire message back into the record it encodes.
///
/// This is the exact inverse of `encode`: decoding succeeds exactly on
/// the canonical wire forms of well-formed records, and then returns
/// the encoded record (the round-trip law). On any other input it
/// returns `None`; on success the input is guaranteed to be the
/// canonical wire form of the returned record, so a decode failure
/// always means the input was not produced by `encode`.
#[verifier::loop_isolation(false)]
#[verifier::rlimit(100)]
pub fn decode(s: &Vec<u8>) -> (r: Option<Record>)
    ensures
        match r {
            Option::Some(rec) => record_wf(record_model(rec)) && enc_record(record_model(rec))
                == s@,
            Option::None => true,
        },
        forall|m: RecordView| #![trigger enc_record(m)]
            rec_hyp(s@, m) ==> (r matches Option::Some(rec) && record_model(rec) == m),
{
    let head = decode_head(s);
    let value: Option<Json>;
    let message: Vec<u8>;
    let level: Level;
    let idx5: usize;
    match head {
        Option::None => {
            return Option::None;
        },
        Option::Some((v0, m0, l0, n0)) => {
            value = v0;
            message = m0;
            level = l0;
            idx5 = n0;
        },
    }
    if !expect_lit_file(s, if idx5 <= s.len() {
        idx5
    } else {
        s.len()
    }) || idx5 > s.len() {
        proof {
            assert forall|m: RecordView| #![trigger enc_record(m)] !rec_hyp(s@, m) by {
                if rec_hyp(s@, m) {
                    lemma_record_split(s@, m);
                }
            }
        }
        return Option::None;
    }
    let idx6 = idx5 + 8;
    let file: Option<Vec<u8>>;
    let idx7: usize;
    if idx6 > s.len() {
        proof {
            assert forall|m: RecordView| #![trigger enc_record(m)] !rec_hyp(s@, m) by {
                if rec_hyp(s@, m) {
                    lemma_record_split(s@, m);
                }
            }
        }
        return Option::None;
    }
    match parse_opt_str(s, idx6) {
        Option::None => {
            proof {
                assert forall|m: RecordView| #![trigger enc_record(m)] !rec_hyp(s@, m) by {
                    if rec_hyp(s@, m) {
                        lemma_record_split(s@, m);
                        assert(enc_at(s@, idx6 as int, enc_opt_str(m.file)));
                        assert(false);
                    }
                }
            }
            return Option::None;
        },
        Option::Some((f0, n7)) => {
            file = f0;
            idx7 = n7;
        },
    }
    proof {
        assert forall|m: RecordView| #![trigger enc_record(m)]
            rec_hyp(s@, m) implies (idx7 == p_module_lit(m) && opt_bytes_model(file)
            == m.file) by {
            lemma_record_split(s@, m);
            assert(enc_at(s@, idx6 as int, enc_opt_str(m.file)));
        }
    }
    if !expect_lit_module(s, if idx7 <= s.len() {
        idx7
    } else {
        s.len()
    }) || idx7 > s.len() {
        proof {
            assert forall|m: RecordView| #![trigger enc_record(m)] !rec_hyp(s@, m) by {
                if rec_hyp(s@, m) {
                    lemma_record_split(s@, m);
                }
            }
        }
        return Option::None;
    }
    let idx8 = idx7 + 10;
    let module: Option<Vec<u8>>;
    let idx9: usize;
    if idx8 > s.len() {
        proof {
            assert forall|m: RecordView| #![trigger enc_record(m)] !rec_hyp(s@, m) by {
                if rec_hyp(s@, m) {
                    lemma_record_split(s@, m);
                }
            }
        }
        return Option::None;
    }
    match parse_opt_str(s, idx8) {
        Option::None => {
            proof {
                assert forall|m: RecordView| #![trigger enc_record(m)] !rec_hyp(s@, m) by {
                    if rec_hyp(s@, m) {
                        lemma_record_split(s@, m);
                        assert(enc_at(s@, idx8 as int, enc_opt_str(m.module)));
                        assert(false);
                    }
                }
            }
            return Option::None;
        },
        Option::Some((m0, n9)) => {
            module = m0;
            idx9 = n9;
        },
    }
    proof {
        assert forall|m: RecordView| #![trigger enc_record(m)]
            rec_hyp(s@, m) implies (idx9 == p_line_lit(m) && opt_bytes_model(module)
            == m.module) by {
            lemma_record_split(s@, m);
            assert(enc_at(s@, idx8 as int, enc_opt_str(m.module)));
        }
    }
    if !expect_lit_line(s, if idx9 <= s.len() {
        idx9
    } else {
        s.len()
    }) || idx9 > s.len() {
        proof {
            assert forall|m: RecordView| #![trigger enc_record(m)] !rec_hyp(s@, m) by {
                if rec_hyp(s@, m) {
                    lemma_record_split(s@, m);
                }
            }
        }
        return Option::None;
    }
    let idx10 = idx9 + 8;
    let line: Option<u32>;
    let idx11: usize;
    if expect_null(s, if idx10 <= s.len() {
        idx10
    } else {
        s.len()
    }) && idx10 <= s.len() {
        line = Option::None;
        idx11 = idx10 + 4;
    } else {
        if idx10 > s.len() {
            proof {
                assert forall|m: RecordView| #![trigger enc_record(m)] !rec_hyp(s@, m) by {
                    if rec_hyp(s@, m) {
                        lemma_record_split(s@, m);
                    }
                }
            }
            return Option::None;
        }
        match parse_line_number(s, idx10) {
            Option::None => {
                proof {
                    assert forall|m: RecordView| #![trigger enc_record(m)] !rec_hyp(s@, m) by {
                        if rec_hyp(s@, m) {
                            lemma_record_split(s@, m);
                            match m.line {
                                Option::None => {
                                    assert(s@.subrange(p_line(m), p_line(m) + 4)[0] == s@[p_line(
                                        m,
                                    )]);
                                    assert(false);
                                },
                                Option::Some(v) => {
                                    lemma_dec_digits_shape(v as nat);
                                    assert(s@[p_close(m)] == 0x7du8);
                                    assert(dec_digits(v as nat) == dec_digits(v as nat));
                                    assert(false);
                                },
                            }
                        }
                    }
                }
                return Option::None;
            },
            Option::Some((v, n11)) => {
                line = Option::Some(v);
                idx11 = n11;
            },
        }
    }
    proof {
        assert forall|m: RecordView| #![trigger enc_record(m)]
            rec_hyp(s@, m) implies (idx11 == p_close(m) && line == m.line) by {
            lemma_record_split(s@, m);
            match m.line {
                Option::None => {
                    assert(enc_at(s@, p_line(m), lit_null()));
                },
                Option::Some(v) => {
                    lemma_dec_digits_shape(v as nat);
                    if enc_at(s@, idx10 as int, lit_null()) {
                        assert(s@.subrange(idx10 as int, idx10 + 4)[0] == s@[idx10 as int]);
                        assert(s@.subrange(
                            p_line(m),
                            p_line(m) + dec_digits(v as nat).len() as int,
                        )[0] == s@[p_line(m)]);
                        assert(false);
                    }
                    assert(s@[p_close(m)] == 0x7du8);
                    assert(dec_digits(v as nat) == dec_digits(v as nat));
                },
            }
        }
    }
    if idx11 >= s.len() || s[idx11] != 0x7d || idx11 + 1 != s.len() {
        proof {
            assert forall|m: RecordView| #![trigger enc_record(m)] !rec_hyp(s@, m) by {
                if rec_hyp(s@, m) {
                    lemma_record_split(s@, m);
                    assert(s@[p_close(m)] == 0x7du8);
                }
            }
        }
        return Option::None;
    }
    let rec = Record { value, message, level, file, module, line };
    proof {
        let mv = record_model(rec);
        assert(record_wf(mv));
        assert(enc_record(mv) == s@) by {
            assert(opt_json_model(value) == mv.value);
            assert(q_msg_lit(mv.value) == p_msg_lit(mv));
            assert(q_msg(mv.value) == p_msg(mv));
            assert(q_level_lit(mv.value, mv.message) == p_level_lit(mv));
            assert(q_level(mv.value, mv.message) == p_level(mv));
            assert(idx5 == p_file_lit(mv));
            assert(idx6 == p_file(mv));
            assert(idx7 == p_module_lit(mv));
            assert(idx8 == p_module(mv));
            assert(idx9 == p_line_lit(mv));
            assert(idx10 == p_line(mv));
            assert(idx11 == p_close(mv));
            assert(s@.subrange(idx11 as int, idx11 + 1) =~= seq![0x7du8]);
            lemma_record_join(s@, mv);
        }
        assert forall|m: RecordView| #![trigger enc_record(m)]
            rec_hyp(s@, m) implies record_model(rec) == m by {
            assert(idx11 == p_close(m));
        }
    }
    Option::Some(rec)
}

/// Powers of ten grow with the exponent.
proof fn lemma_pow10_mono(a: nat, b: nat)
    requires
        a <= b,
    ensures
        pow10(a) <= pow10(b),
    decreases b,
{
    if a < b {
        lemma_pow10_mono(a, (b - 1) as nat);
        assert(pow10(b) == 10 * pow10((b - 1) as nat));
    }
}

} // verus!
