//! The wire-level value tree of the protocol and its binary codec.
use vstd::prelude::*;

verus! {

broadcast use vstd::std_specs::vec::group_vec_axioms;

use crate::util::RespError;

/// A value of the wire protocol: the five tagged types the codec can frame.
#[derive(Debug)]
pub enum RespDataType {
    SimpleStrings(Vec<u8>),
    Errors(Vec<u8>),
    Integers(i64),
    BulkStrings(Option<Vec<u8>>),
    Arrays(Option<Vec<RespDataType>>),
}

/// The mathematical shape of a wire value: sequences in place of vectors.
pub enum ValueView {
    SimpleStrings(Seq<u8>),
    Errors(Seq<u8>),
    Integers(i64),
    BulkStrings(Option<Seq<u8>>),
    Arrays(Option<Seq<ValueView>>),
}

impl RespDataType {
    /// The mathematical value this node represents, with every vector
    /// abstracted to its sequence of elements.
    pub open spec fn deep(self) -> ValueView
        decreases self, 0int,
    {
        match self {
            RespDataType::SimpleStrings(s) => ValueView::SimpleStrings(s@),
            RespDataType::Errors(s) => ValueView::Errors(s@),
            RespDataType::Integers(n) => ValueView::Integers(n),
            RespDataType::BulkStrings(s) => ValueView::BulkStrings(
                match s {
                    Some(b) => Some(b@),
                    None => None,
                },
            ),
            RespDataType::Arrays(a) => ValueView::Arrays(
                match a {
                    Some(elems) => Some(deep_seq(elems@)),
                    None => None,
                },
            ),
        }
    }
}

/// The mathematical values of a sequence of wire values, element by element.
pub open spec fn deep_seq(s: Seq<RespDataType>) -> Seq<ValueView>
    decreases s, 1int,
{
    Seq::new(
        s.len(),
        |i: int|
            if 0 <= i < s.len() {
                s[i].deep()
            } else {
                ValueView::Arrays(None)
            },
    )
}

/// No byte of the sequence is a carriage return or a line feed, so the
/// sequence can stand on one line of the wire format.
pub open spec fn line_safe(s: Seq<u8>) -> bool {
    forall|i: int| 0 <= i < s.len() ==> s[i] != 13u8 && s[i] != 10u8
}

/// A value the protocol can carry: one-line payloads hold no CR or LF, and
/// every length fits the signed 64-bit length line of the wire format.
pub open spec fn wf(v: ValueView) -> bool
    decreases v,
{
    match v {
        ValueView::SimpleStrings(s) => line_safe(s),
        ValueView::Errors(s) => line_safe(s),
        ValueView::Integers(_) => true,
        ValueView::BulkStrings(s) => match s {
            Some(b) => b.len() <= i64::MAX,
            None => true,
        },
        ValueView::Arrays(a) => match a {
            Some(elems) => elems.len() <= i64::MAX && (forall|i: int|
                0 <= i < elems.len() ==> wf(#[trigger] elems[i])),
            None => true,
        },
    }
}

/// The canonical decimal digits of a non-negative number, most significant
/// first.
pub open spec fn dec_u(n: nat) -> Seq<u8>
    decreases n,
{
    if n < 10 {
        seq![(48 + n) as u8]
    } else {
        dec_u(n / 10) + seq![(48 + n % 10) as u8]
    }
}

/// The canonical decimal rendering of a signed number: a minus sign for
/// negative numbers, then the digits of its magnitude.
pub open spec fn dec_i(n: int) -> Seq<u8> {
    if n < 0 {
        seq![45u8] + dec_u((-n) as nat)
    } else {
        dec_u(n as nat)
    }
}

/// The two line-terminator bytes CR LF.
pub open spec fn crlf() -> Seq<u8> {
    seq![13u8, 10u8]
}

/// The exact bytes that frame a value on the wire: its tag byte, then its
/// type-specific payload, every line closed by CR LF.
pub open spec fn encoding(v: ValueView) -> Seq<u8>
    decreases v, 0int,
{
    match v {
        ValueView::SimpleStrings(s) => seq![43u8] + s + crlf(),
        ValueView::Errors(s) => seq![45u8] + s + crlf(),
        ValueView::Integers(n) => seq![58u8] + dec_i(n as int) + crlf(),
        ValueView::BulkStrings(s) => match s {
            Some(b) => seq![36u8] + dec_i(b.len() as int) + crlf() + b + crlf(),
            None => seq![36u8] + dec_i(-1) + crlf(),
        },
        ValueView::Arrays(a) => match a {
            Some(elems) => seq![42u8] + dec_i(elems.len() as int) + crlf() + encode_all(elems),
            None => seq![42u8] + dec_i(-1) + crlf(),
        },
    }
}

/// The encodings of a sequence of values, one after the other.
pub open spec fn encode_all(elems: Seq<ValueView>) -> Seq<u8>
    decreases elems, 1int,
{
    if elems.len() == 0 {
        Seq::empty()
    } else {
        encoding(elems[0]) + encode_all(elems.drop_first())
    }
}

/// Index of the first line-feed byte in the sequence, or -1 when it has none.
pub open spec fn find_lf(s: Seq<u8>) -> int
    decreases s.len(),
{
    if s.len() == 0 {
        -1
    } else if s[0] == 10u8 {
        0
    } else {
        let r = find_lf(s.drop_first());
        if r < 0 {
            -1
        } else {
            r + 1
        }
    }
}

/// The content of the line whose line feed stands at index `i`: the bytes
/// before it, less one trailing carriage return if there is one.
pub open spec fn line_content(s: Seq<u8>, i: int) -> Seq<u8> {
    let raw = s.subrange(0, i);
    if raw.len() > 0 && raw[raw.len() - 1] == 13u8 {
        raw.drop_last()
    } else {
        raw
    }
}

/// Every byte of the sequence is an ASCII decimal digit.
pub open spec fn all_digits(s: Seq<u8>) -> bool {
    forall|i: int| 0 <= i < s.len() ==> 48 <= #[trigger] s[i] <= 57
}

/// The number a sequence of decimal digits denotes, most significant first.
pub open spec fn digits_val(s: Seq<u8>) -> int
    decreases s.len(),
{
    if s.len() == 0 {
        0
    } else {
        digits_val(s.drop_last()) * 10 + (s.last() - 48)
    }
}

/// The signed 64-bit number a line denotes: an optional sign, then at least
/// one digit, the whole within the 64-bit range; `None` for any other line.
pub open spec fn parse_i64(s: Seq<u8>) -> Option<i64> {
    let negative = s.len() > 0 && s[0] == 45u8;
    let digits = if s.len() > 0 && (s[0] == 45u8 || s[0] == 43u8) {
        s.drop_first()
    } else {
        s
    };
    if digits.len() == 0 || !all_digits(digits) {
        None
    } else {
        let magnitude = digits_val(digits);
        if negative {
            if -magnitude >= i64::MIN {
                Some((-magnitude) as i64)
            } else {
                None
            }
        } else {
            if magnitude <= i64::MAX {
                Some(magnitude as i64)
            } else {
                None
            }
        }
    }
}

/// What reading one value from the front of a byte sequence yields: the value
/// and how many bytes it covered, a malformed front, or a sequence that ends
/// before the value does.
pub enum ParseOutcome {
    Found(ValueView, int),
    Bad,
    Incomplete,
}

/// What reading a run of values yields: the values and the bytes they cover
/// together, a malformed run, or a sequence that ends too early.
pub enum ElemsOutcome {
    Found(Seq<ValueView>, int),
    Bad,
    Incomplete,
}

/// Reads one value from the front of `s`: the tag byte selects the type, each
/// line runs to its first line feed, and lengths of -1 mark the null bulk
/// string and the null array.
pub open spec fn parse_value(s: Seq<u8>) -> ParseOutcome
    decreases s.len(), 0int, 0int,
{
    if s.len() == 0 {
        ParseOutcome::Incomplete
    } else {
        let tag = s[0];
        let rest = s.drop_first();
        let lf = find_lf(rest);
        if tag == 43u8 {
            if lf < 0 || lf >= rest.len() {
                ParseOutcome::Incomplete
            } else {
                ParseOutcome::Found(ValueView::SimpleStrings(line_content(rest, lf)), 2 + lf)
            }
        } else if tag == 45u8 {
            if lf < 0 || lf >= rest.len() {
                ParseOutcome::Incomplete
            } else {
                ParseOutcome::Found(ValueView::Errors(line_content(rest, lf)), 2 + lf)
            }
        } else if tag == 58u8 {
            if lf < 0 || lf >= rest.len() {
                ParseOutcome::Incomplete
            } else {
                match parse_i64(line_content(rest, lf)) {
                    Some(n) => ParseOutcome::Found(ValueView::Integers(n), 2 + lf),
                    None => ParseOutcome::Bad,
                }
            }
        } else if tag == 36u8 {
            if lf < 0 || lf >= rest.len() {
                ParseOutcome::Incomplete
            } else {
                match parse_i64(line_content(rest, lf)) {
                    Some(n) => if n == -1 {
                        ParseOutcome::Found(ValueView::BulkStrings(None), 2 + lf)
                    } else if n < 0 {
                        ParseOutcome::Bad
                    } else {
                        let start = 2 + lf;
                        if s.len() < start + n + 2 {
                            ParseOutcome::Incomplete
                        } else if s.subrange(start + n, start + n + 2) == crlf() {
                            ParseOutcome::Found(
                                ValueView::BulkStrings(Some(s.subrange(start, start + n))),
                                start + n + 2,
                            )
                        } else {
                            ParseOutcome::Bad
                        }
                    },
                    None => ParseOutcome::Bad,
                }
            }
        } else if tag == 42u8 {
            if lf < 0 || lf >= rest.len() {
                ParseOutcome::Incomplete
            } else {
                match parse_i64(line_content(rest, lf)) {
                    Some(n) => if n == -1 {
                        ParseOutcome::Found(ValueView::Arrays(None), 2 + lf)
                    } else if n < 0 {
                        ParseOutcome::Bad
                    } else {
                        let start = 2 + lf;
                        match parse_elems(s.subrange(start, s.len() as int), n as int) {
                            ElemsOutcome::Found(elems, used) => ParseOutcome::Found(
                                ValueView::Arrays(Some(elems)),
                                start + used,
                            ),
                            ElemsOutcome::Bad => ParseOutcome::Bad,
                            ElemsOutcome::Incomplete => ParseOutcome::Incomplete,
                        }
                    },
                    None => ParseOutcome::Bad,
                }
            }
        } else {
            ParseOutcome::Bad
        }
    }
}

/// Reads `n` values from the front of `s`, one after the other.
pub open spec fn parse_elems(s: Seq<u8>, n: int) -> ElemsOutcome
    decreases s.len(), 1int, n,
{
    if n <= 0 {
        ElemsOutcome::Found(Seq::empty(), 0)
    } else {
        match parse_value(s) {
            ParseOutcome::Found(v, used) => if 1 <= used <= s.len() {
                match parse_elems(s.subrange(used, s.len() as int), n - 1) {
                    ElemsOutcome::Found(elems, used2) => ElemsOutcome::Found(
                        seq![v] + elems,
                        used + used2,
                    ),
                    ElemsOutcome::Bad => ElemsOutcome::Bad,
                    ElemsOutcome::Incomplete => ElemsOutcome::Incomplete,
                }
            } else {
                ElemsOutcome::Bad
            },
            ParseOutcome::Bad => ElemsOutcome::Bad,
            ParseOutcome::Incomplete => ElemsOutcome::Incomplete,
        }
    }
}

proof fn lemma_find_lf_prefix(s: Seq<u8>, k: int)
    requires
        0 <= k < s.len(),
        s[k] == 10u8,
        forall|j: int| 0 <= j < k ==> s[j] != 10u8,
    ensures
        find_lf(s) == k,
    decreases k,
{
    if k > 0 {
        lemma_find_lf_prefix(s.drop_first(), k - 1);
    }
}

proof fn lemma_dec_u(n: nat)
    ensures
        all_digits(dec_u(n)),
        dec_u(n).len() >= 1,
        digits_val(dec_u(n)) == n,
    decreases n,
{
    if n < 10 {
        let s = dec_u(n);
        assert(s.drop_last() =~= Seq::<u8>::empty());
        assert(digits_val(Seq::<u8>::empty()) == 0);
        assert(s.last() == (48 + n) as u8);
    } else {
        lemma_dec_u(n / 10);
        let s = dec_u(n);
        assert(s.drop_last() =~= dec_u(n / 10));
        assert(s.last() == (48 + n % 10) as u8);
        assert(n == (n / 10) * 10 + n % 10) by (nonlinear_arith);
        assert forall|i: int| 0 <= i < s.len() implies 48 <= #[trigger] s[i] <= 57 by {
            if i < s.len() - 1 {
                assert(s[i] == dec_u(n / 10)[i]);
            }
        }
    }
}

proof fn lemma_dec_i(n: int)
    requires
        i64::MIN <= n <= i64::MAX,
    ensures
        line_safe(dec_i(n)),
        dec_i(n).len() >= 1,
        parse_i64(dec_i(n)) == Some(n as i64),
{
    let s = dec_i(n);
    if n < 0 {
        lemma_dec_u((-n) as nat);
        assert(s.drop_first() =~= dec_u((-n) as nat));
        assert(s[0] == 45u8);
    } else {
        lemma_dec_u(n as nat);
        assert(48 <= s[0] <= 57);
    }
}

proof fn lemma_take_line(content: Seq<u8>, rest: Seq<u8>)
    requires
        line_safe(content),
    ensures
        find_lf(content + crlf() + rest) == content.len() as int + 1,
        line_content(content + crlf() + rest, content.len() as int + 1) == content,
{
    let s = content + crlf() + rest;
    assert(s[content.len() as int] == 13u8);
    assert(s[content.len() as int + 1] == 10u8);
    lemma_find_lf_prefix(s, content.len() as int + 1);
    let raw = s.subrange(0, content.len() as int + 1);
    assert(raw =~= content + seq![13u8]);
    assert(raw[raw.len() - 1] == 13u8);
    assert(raw.drop_last() =~= content);
}

proof fn lemma_encoding_len_min(v: ValueView)
    ensures
        encoding(v).len() >= 3,
{
    match v {
        ValueView::SimpleStrings(_) => {},
        ValueView::Errors(_) => {},
        ValueView::Integers(_) => {},
        ValueView::BulkStrings(_) => {},
        ValueView::Arrays(_) => {},
    }
}

/// One half of the round-trip law: reading back the encoding of any
/// well-formed value, whatever follows it, finds exactly that value and
/// covers exactly its encoding.  Together with the exact contracts of
/// `serialize` and `deserialize` this gives both directions of the law:
/// deserializing a serialized value returns the value, and serializing what
/// was deserialized from an encoded byte sequence reproduces those bytes.
pub proof fn lemma_parse_encoding(v: ValueView, rest: Seq<u8>)
    requires
        wf(v),
    ensures
        parse_value(encoding(v) + rest) == ParseOutcome::Found(v, encoding(v).len() as int),
    decreases v, 0int,
{
    let s = encoding(v) + rest;
    match v {
        ValueView::SimpleStrings(c) => {
            assert(s[0] == 43u8);
            assert(s.drop_first() =~= c + crlf() + rest);
            lemma_take_line(c, rest);
        },
        ValueView::Errors(c) => {
            assert(s[0] == 45u8);
            assert(s.drop_first() =~= c + crlf() + rest);
            lemma_take_line(c, rest);
        },
        ValueView::Integers(n) => {
            lemma_dec_i(n as int);
            assert(s[0] == 58u8);
            assert(s.drop_first() =~= dec_i(n as int) + crlf() + rest);
            lemma_take_line(dec_i(n as int), rest);
        },
        ValueView::BulkStrings(ob) => match ob {
            None => {
                lemma_dec_i(-1);
                assert(s[0] == 36u8);
                assert(s.drop_first() =~= dec_i(-1) + crlf() + rest);
                lemma_take_line(dec_i(-1), rest);
            },
            Some(b) => {
                let content = dec_i(b.len() as int);
                lemma_dec_i(b.len() as int);
                assert(s[0] == 36u8);
                assert(s.drop_first() =~= content + crlf() + (b + crlf() + rest));
                lemma_take_line(content, b + crlf() + rest);
                let lf = find_lf(s.drop_first());
                assert(lf == content.len() + 1);
                let start = 2 + lf;
                let n = b.len() as int;
                assert(s.len() == start + n + 2 + rest.len());
                assert(s.subrange(start + n, start + n + 2) =~= crlf());
                assert(s.subrange(start, start + n) =~= b);
            },
        },
        ValueView::Arrays(oa) => match oa {
            None => {
                lemma_dec_i(-1);
                assert(s[0] == 42u8);
                assert(s.drop_first() =~= dec_i(-1) + crlf() + rest);
                lemma_take_line(dec_i(-1), rest);
            },
            Some(elems) => {
                let content = dec_i(elems.len() as int);
                lemma_dec_i(elems.len() as int);
                assert(s[0] == 42u8);
                assert(s.drop_first() =~= content + crlf() + (encode_all(elems) + rest));
                lemma_take_line(content, encode_all(elems) + rest);
                let lf = find_lf(s.drop_first());
                assert(lf == content.len() + 1);
                let start = 2 + lf;
                assert(s.subrange(start, s.len() as int) =~= encode_all(elems) + rest);
                lemma_parse_elems_encodings(elems, rest);
            },
        },
    }
}

/// The round-trip law, stated on one frame: reading back the encoding of any
/// well-formed value finds exactly that value and covers every byte.  So
/// deserializing a serialized value returns the value, and serializing what
/// was deserialized from an encoded byte sequence reproduces that sequence.
pub proof fn lemma_round_trip(v: ValueView)
    requires
        wf(v),
    ensures
        parse_value(encoding(v)) == ParseOutcome::Found(v, encoding(v).len() as int),
{
    lemma_parse_encoding(v, Seq::empty());
    assert(encoding(v) + Seq::<u8>::empty() =~= encoding(v));
}

/// Reading back the concatenated encodings of well-formed values, whatever
/// follows them, finds exactly those values.
pub proof fn lemma_parse_elems_encodings(elems: Seq<ValueView>, rest: Seq<u8>)
    requires
        forall|i: int| 0 <= i < elems.len() ==> wf(#[trigger] elems[i]),
    ensures
        parse_elems(encode_all(elems) + rest, elems.len() as int) == ElemsOutcome::Found(
            elems,
            encode_all(elems).len() as int,
        ),
    decreases elems, 1int,
{
    if elems.len() == 0 {
        assert(encode_all(elems) + rest =~= rest);
        assert(elems =~= Seq::<ValueView>::empty());
    } else {
        let e0 = elems[0];
        let tail = elems.drop_first();
        let s = encode_all(elems) + rest;
        assert(s =~= encoding(e0) + (encode_all(tail) + rest));
        lemma_parse_encoding(e0, encode_all(tail) + rest);
        lemma_encoding_len_min(e0);
        let used0 = encoding(e0).len() as int;
        assert(s.subrange(used0, s.len() as int) =~= encode_all(tail) + rest);
        lemma_parse_elems_encodings(tail, rest);
        assert(seq![e0] + tail =~= elems);
    }
}

proof fn lemma_deep_seq_push(s: Seq<RespDataType>, v: RespDataType)
    ensures
        deep_seq(s.push(v)) == deep_seq(s) + seq![v.deep()],
{
    assert(deep_seq(s.push(v)) =~= deep_seq(s) + seq![v.deep()]);
}

proof fn lemma_encode_all_push(elems: Seq<ValueView>, x: ValueView)
    ensures
        encode_all(elems.push(x)) == encode_all(elems) + encoding(x),
    decreases elems.len(),
{
    if elems.len() == 0 {
        assert(elems.push(x)[0] == x);
        assert(elems.push(x).drop_first() =~= Seq::<ValueView>::empty());
        assert(encode_all(Seq::<ValueView>::empty()) =~= Seq::<u8>::empty());
        assert(encode_all(elems.push(x)) =~= encoding(x));
        assert(encode_all(elems) + encoding(x) =~= encoding(x));
    } else {
        assert(elems.push(x).drop_first() =~= elems.drop_first().push(x));
        lemma_encode_all_push(elems.drop_first(), x);
        assert(elems.push(x)[0] == elems[0]);
        assert(encode_all(elems) + encoding(x) =~= encoding(elems[0]) + (encode_all(
            elems.drop_first(),
        ) + encoding(x)));
    }
}

/// Appends the canonical decimal digits of `m` to `out`.
fn push_dec_u(out: &mut Vec<u8>, m: u64)
    ensures
        final(out)@ == old(out)@ + dec_u(m as nat),
    decreases m,
{
    if m < 10 {
        out.push(48 + m as u8);
    } else {
        push_dec_u(out, m / 10);
        out.push(48 + (m % 10) as u8);
        proof {
            assert(old(out)@ + dec_u((m / 10) as nat) + seq![(48 + m as nat % 10) as u8] =~= old(
                out,
            )@ + dec_u(m as nat));
        }
    }
}

impl RespDataType {
    /// A wire value holding the bytes as a simple string.
    pub fn simple_strings(str: Vec<u8>) -> (r: RespDataType)
        ensures
            r.deep() == ValueView::SimpleStrings(str@),
    {
        RespDataType::SimpleStrings(str)
    }

    /// A wire value holding the bytes as an error line.
    pub fn errors(str: Vec<u8>) -> (r: RespDataType)
        ensures
            r.deep() == ValueView::Errors(str@),
    {
        RespDataType::Errors(str)
    }

    /// A wire value holding the number.
    pub fn integers(num: i64) -> (r: RespDataType)
        ensures
            r.deep() == ValueView::Integers(num),
    {
        RespDataType::Integers(num)
    }

    /// A wire value holding the bytes as a bulk string.
    pub fn bulk_strings(str: Vec<u8>) -> (r: RespDataType)
        ensures
            r.deep() == ValueView::BulkStrings(Some(str@)),
    {
        RespDataType::BulkStrings(Some(str))
    }

    /// The null bulk string.
    pub fn empty_bulk_strings() -> (r: RespDataType)
        ensures
            r.deep() == ValueView::BulkStrings(None::<Seq<u8>>),
    {
        RespDataType::BulkStrings(None)
    }

    /// A wire value holding the values as an array.
    pub fn arrays(vec: Vec<RespDataType>) -> (r: RespDataType)
        ensures
            r.deep() == ValueView::Arrays(Some(deep_seq(vec@))),
    {
        RespDataType::Arrays(Some(vec))
    }

    /// The null array.
    pub fn empty_arrays() -> (r: RespDataType)
        ensures
            r.deep() == ValueView::Arrays(None::<Seq<ValueView>>),
    {
        RespDataType::Arrays(None)
    }

    /// The tag byte that announces this value's type on the wire.
    pub fn tag(&self) -> (t: u8)
        ensures
            t == match self.deep() {
                ValueView::SimpleStrings(_) => 43u8,
                ValueView::Errors(_) => 45u8,
                ValueView::Integers(_) => 58u8,
                ValueView::BulkStrings(_) => 36u8,
                ValueView::Arrays(_) => 42u8,
            },
    {
        match self {
            RespDataType::SimpleStrings(_) => 43,
            RespDataType::Errors(_) => 45,
            RespDataType::Integers(_) => 58,
            RespDataType::BulkStrings(_) => 36,
            RespDataType::Arrays(_) => 42,
        }
    }

    /// A value of its own holding the same mathematical value as this one.
    pub fn deep_copy(&self) -> (r: RespDataType)
        ensures
            r.deep() == self.deep(),
        decreases *self,
    {
        match self {
            RespDataType::SimpleStrings(s) => {
                let c = crate::util::copy_range(s, 0, s.len());
                proof {
                    assert(c@ =~= s@);
                }
                RespDataType::SimpleStrings(c)
            },
            RespDataType::Errors(s) => {
                let c = crate::util::copy_range(s, 0, s.len());
                proof {
                    assert(c@ =~= s@);
                }
                RespDataType::Errors(c)
            },
            RespDataType::Integers(n) => RespDataType::Integers(*n),
            RespDataType::BulkStrings(s) => match s {
                Some(b) => {
                    let c = crate::util::copy_range(b, 0, b.len());
                    proof {
                        assert(c@ =~= b@);
                    }
                    RespDataType::BulkStrings(Some(c))
                },
                None => RespDataType::BulkStrings(None),
            },
            RespDataType::Arrays(a) => match a {
                Some(elems) => {
                    let n = elems.len();
                    let mut out: Vec<RespDataType> = Vec::new();
                    let mut i: usize = 0;
                    while i < n
                        invariant
                            i <= n,
                            n == elems@.len(),
                            *self == RespDataType::Arrays(Some(*elems)),
                            deep_seq(out@) == deep_seq(elems@.take(i as int)),
                        decreases n - i,
                    {
                        proof {
                            let ghost x = *self;
                            assert(decreases_to!(x => x->Arrays_0->0@[i as int]));
                            assert(decreases_to!(*self => elems@[i as int]));
                        }
                        let c = elems[i].deep_copy();
                        out.push(c);
                        i = i + 1;
                        proof {
                            lemma_deep_seq_push(out@.drop_last(), out@.last());
                            assert(out@.drop_last().push(out@.last()) =~= out@);
                            assert(deep_seq(elems@.take(i as int)) =~= deep_seq(
                                elems@.take(i as int - 1),
                            ) + seq![elems@[i as int - 1].deep()]);
                        }
                    }
                    proof {
                        assert(elems@.take(n as int) =~= elems@);
                    }
                    RespDataType::Arrays(Some(out))
                },
                None => RespDataType::Arrays(None),
            },
        }
    }

    /// The exact bytes that frame this value on the wire, appended to `out`.
    fn serialize_into(&self, out: &mut Vec<u8>)
        ensures
            final(out)@ == old(out)@ + encoding(self.deep()),
        decreases *self,
    {
        match self {
            RespDataType::SimpleStrings(s) => {
                out.push(43);
                crate::util::push_bytes(out, s);
                out.push(13);
                out.push(10);
                proof {
                    assert(out@ =~= old(out)@ + (seq![43u8] + s@ + crlf()));
                }
            },
            RespDataType::Errors(s) => {
                out.push(45);
                crate::util::push_bytes(out, s);
                out.push(13);
                out.push(10);
                proof {
                    assert(out@ =~= old(out)@ + (seq![45u8] + s@ + crlf()));
                }
            },
            RespDataType::Integers(n) => {
                out.push(58);
                if *n < 0 {
                    out.push(45);
                    let m: u64 = ((-(*n + 1)) as u64) + 1;
                    push_dec_u(out, m);
                    proof {
                        assert(m as nat == (-(*n as int)) as nat);
                        assert(dec_i(*n as int) == seq![45u8] + dec_u((-(*n as int)) as nat));
                    }
                } else {
                    push_dec_u(out, *n as u64);
                }
                out.push(13);
                out.push(10);
                proof {
                    assert(out@ =~= old(out)@ + (seq![58u8] + dec_i(*n as int) + crlf()));
                }
            },
            RespDataType::BulkStrings(ob) => {
                out.push(36);
                match ob {
                    Some(b) => {
                        push_dec_u(out, b.len() as u64);
                        out.push(13);
                        out.push(10);
                        crate::util::push_bytes(out, b);
                        out.push(13);
                        out.push(10);
                        proof {
                            assert(dec_i(b@.len() as int) == dec_u(b@.len() as nat));
                            assert(out@ =~= old(out)@ + (seq![36u8] + dec_i(b@.len() as int)
                                + crlf() + b@ + crlf()));
                        }
                    },
                    None => {
                        out.push(45);
                        out.push(49);
                        out.push(13);
                        out.push(10);
                        proof {
                            assert(dec_i(-1) =~= seq![45u8, 49u8]);
                            assert(out@ =~= old(out)@ + (seq![36u8] + dec_i(-1) + crlf()));
                        }
                    },
                }
            },
            RespDataType::Arrays(oa) => {
                out.push(42);
                match oa {
                    Some(elems) => {
                        push_dec_u(out, elems.len() as u64);
                        out.push(13);
                        out.push(10);
                        let ghost head = out@;
                        let n = elems.len();
                        let mut i: usize = 0;
                        while i < n
                            invariant
                                i <= n,
                                n == elems@.len(),
                                *self == RespDataType::Arrays(Some(*elems)),
                                out@ == head + encode_all(deep_seq(elems@).take(i as int)),
                            decreases n - i,
                        {
                            proof {
                                let ghost x = *self;
                                assert(decreases_to!(x => x->Arrays_0->0@[i as int]));
                                assert(decreases_to!(*self => elems@[i as int]));
                            }
                            elems[i].serialize_into(out);
                            i = i + 1;
                            proof {
                                assert(deep_seq(elems@).take(i as int) =~= deep_seq(
                                    elems@,
                                ).take(i as int - 1).push(deep_seq(elems@)[i as int - 1]));
                                lemma_encode_all_push(
                                    deep_seq(elems@).take(i as int - 1),
                                    deep_seq(elems@)[i as int - 1],
                                );
                                assert(out@ =~= head + encode_all(
                                    deep_seq(elems@).take(i as int),
                                ));
                            }
                        }
                        proof {
                            assert(deep_seq(elems@).take(n as int) =~= deep_seq(elems@));
                            assert(dec_i(elems@.len() as int) == dec_u(elems@.len() as nat));
                            assert(out@ =~= old(out)@ + (seq![42u8] + dec_i(elems@.len() as int)
                                + crlf() + encode_all(deep_seq(elems@))));
                        }
                    },
                    None => {
                        out.push(45);
                        out.push(49);
                        out.push(13);
                        out.push(10);
                        proof {
                            assert(dec_i(-1) =~= seq![45u8, 49u8]);
                            assert(out@ =~= old(out)@ + (seq![42u8] + dec_i(-1) + crlf()));
                        }
                    },
                }
            },
        }
    }

    /// The exact bytes that frame this value on the wire: its tag byte, then
    /// its type-specific encoding, every line closed by CR LF.
    pub fn serialize(&self) -> (out: Vec<u8>)
        ensures
            out@ == encoding(self.deep()),
    {
        let mut out: Vec<u8> = Vec::new();
        self.serialize_into(&mut out);
        out
    }
}

/// A run outcome with `prefix` values, covering `used` more bytes, put in
/// front of it.
pub open spec fn elems_combine(prefix: Seq<ValueView>, used: int, rest: ElemsOutcome) -> ElemsOutcome {
    match rest {
        ElemsOutcome::Found(es, u) => ElemsOutcome::Found(prefix + es, used + u),
        ElemsOutcome::Bad => ElemsOutcome::Bad,
        ElemsOutcome::Incomplete => ElemsOutcome::Incomplete,
    }
}

proof fn lemma_combine_assoc(a: Seq<ValueView>, ua: int, b: Seq<ValueView>, ub: int, rest: ElemsOutcome)
    ensures
        elems_combine(a, ua, elems_combine(b, ub, rest)) == elems_combine(a + b, ua + ub, rest),
{
    match rest {
        ElemsOutcome::Found(es, u) => {
            assert(a + (b + es) =~= (a + b) + es);
        },
        ElemsOutcome::Bad => {},
        ElemsOutcome::Incomplete => {},
    }
}

proof fn lemma_find_lf_none(s: Seq<u8>)
    requires
        forall|j: int| 0 <= j < s.len() ==> s[j] != 10u8,
    ensures
        find_lf(s) == -1,
    decreases s.len(),
{
    if s.len() > 0 {
        lemma_find_lf_none(s.drop_first());
    }
}

/// Index of the first line-feed byte of `input` at or after `from`.
fn find_lf_exec(input: &Vec<u8>, from: usize) -> (r: Option<usize>)
    requires
        from <= input@.len(),
    ensures
        match r {
            Some(j) => from <= j < input@.len() && input@[j as int] == 10u8 && find_lf(
                input@.subrange(from as int, input@.len() as int),
            ) == j - from,
            None => find_lf(input@.subrange(from as int, input@.len() as int)) == -1,
        },
{
    let n = input.len();
    let mut i: usize = from;
    while i < n
        invariant
            from <= i <= n,
            n == input@.len(),
            forall|m: int| from <= m < i ==> input@[m] != 10u8,
        decreases n - i,
    {
        if input[i] == 10 {
            proof {
                lemma_find_lf_prefix(
                    input@.subrange(from as int, n as int),
                    i as int - from as int,
                );
            }
            return Some(i);
        }
        i = i + 1;
    }
    proof {
        lemma_find_lf_none(input@.subrange(from as int, n as int));
    }
    None
}

/// The signed 64-bit number denoted by the bytes of `input` from `start` up
/// to `end`, read as the wire format's integer lines are.
fn parse_i64_exec(input: &Vec<u8>, start: usize, end: usize) -> (r: Option<i64>)
    requires
        start <= end <= input@.len(),
    ensures
        r == parse_i64(input@.subrange(start as int, end as int)),
{
    let ghost s = input@.subrange(start as int, end as int);
    if start == end {
        return None;
    }
    let b0 = input[start];
    let negative = b0 == 45;
    let d_start = if b0 == 45 || b0 == 43 {
        start + 1
    } else {
        start
    };
    let ghost digits = if s[0] == 45u8 || s[0] == 43u8 {
        s.drop_first()
    } else {
        s
    };
    proof {
        assert(digits =~= input@.subrange(d_start as int, end as int));
    }
    if d_start == end {
        return None;
    }
    let mut i: usize = d_start;
    let mut mag: u64 = 0;
    let mut over = false;
    while i < end
        invariant
            start <= d_start <= i <= end <= input@.len(),
            d_start < end,
            s == input@.subrange(start as int, end as int),
            s.len() > 0,
            negative == (s[0] == 45u8),
            d_start == start + 1 <==> (s[0] == 45u8 || s[0] == 43u8),
            digits == (if s[0] == 45u8 || s[0] == 43u8 {
                s.drop_first()
            } else {
                s
            }),
            digits == input@.subrange(d_start as int, end as int),
            forall|m: int| d_start <= m < i ==> 48 <= #[trigger] input@[m] <= 57,
            !over ==> mag == digits_val(digits.take(i - d_start)) && mag
                <= 9223372036854775808u64,
            over ==> digits_val(digits.take(i - d_start)) > 9223372036854775808u64,
        decreases end - i,
    {
        let b = input[i];
        if b < 48 || b > 57 {
            proof {
                assert(digits[i - d_start] == input@[i as int]);
                assert(!all_digits(digits));
            }
            return None;
        }
        let d = (b - 48) as u64;
        proof {
            assert(digits.take(i - d_start + 1).drop_last() =~= digits.take(i - d_start));
            assert(digits.take(i - d_start + 1).last() == input@[i as int]);
        }
        if !over {
            if mag > 922337203685477580 {
                over = true;
            } else {
                let nm = mag * 10 + d;
                if nm > 9223372036854775808 {
                    over = true;
                } else {
                    mag = nm;
                }
            }
        }
        i = i + 1;
    }
    proof {
        assert(digits.take(end as int - d_start as int) =~= digits);
        assert forall|m: int| 0 <= m < digits.len() implies 48 <= #[trigger] digits[m]
            <= 57 by {
            assert(digits[m] == input@[d_start + m]);
        }
    }
    if over {
        return None;
    }
    if negative {
        if mag == 9223372036854775808 {
            Some(i64::MIN)
        } else {
            Some(-(mag as i64))
        }
    } else {
        if mag >= 9223372036854775808 {
            None
        } else {
            Some(mag as i64)
        }
    }
}

impl RespDataType {
    /// Reads one value from `input` at `pos`: on success the value and the
    /// index just past its frame; `Incomplete` when the bytes end before the
    /// value does, and the malformed frame's fault otherwise, exactly as
    /// `parse_value` reads the same bytes.
    #[verifier::rlimit(100)]
    pub fn deserialize(input: &Vec<u8>, pos: usize) -> (r: Result<(RespDataType, usize), RespError>)
        requires
            pos <= input@.len(),
        ensures
            ({
                let out = parse_value(input@.subrange(pos as int, input@.len() as int));
                match r {
                    Ok((v, end)) => pos < end <= input@.len() && out == ParseOutcome::Found(
                        v.deep(),
                        end - pos,
                    ),
                    Err(e) => if e == RespError::Incomplete {
                        out is Incomplete
                    } else {
                        out is Bad
                    },
                }
            }),
        decreases input@.len() - pos, 0int, 0int,
    {
        let n = input.len();
        let ghost s = input@.subrange(pos as int, input@.len() as int);
        if pos >= n {
            return Err(RespError::Incomplete);
        }
        let tag = input[pos];
        let ghost rest = s.drop_first();
        proof {
            assert(s[0] == tag);
            assert(rest =~= input@.subrange(pos as int + 1, input@.len() as int));
        }
        if tag == 43 || tag == 45 || tag == 58 || tag == 36 || tag == 42 {
            let oj = find_lf_exec(input, pos + 1);
            match oj {
                None => {
                    return Err(RespError::Incomplete);
                },
                Some(j) => {
                    let ghost lf = j as int - (pos as int + 1);
                    let cend = if j > pos + 1 && input[j - 1] == 13 {
                        j - 1
                    } else {
                        j
                    };
                    proof {
                        assert(lf < rest.len());
                        assert(rest.subrange(0, lf) =~= input@.subrange(pos as int + 1, j as int));
                        assert(line_content(rest, lf) =~= input@.subrange(
                            pos as int + 1,
                            cend as int,
                        ));
                    }
                    if tag == 43 || tag == 45 {
                        let content = crate::util::copy_range(input, pos + 1, cend);
                        let v = if tag == 43 {
                            RespDataType::SimpleStrings(content)
                        } else {
                            RespDataType::Errors(content)
                        };
                        return Ok((v, j + 1));
                    }
                    let num = parse_i64_exec(input, pos + 1, cend);
                    if tag == 58 {
                        return match num {
                            None => Err(RespError::BadInteger),
                            Some(x) => Ok((RespDataType::Integers(x), j + 1)),
                        };
                    }
                    if tag == 36 {
                        match num {
                            None => {
                                return Err(RespError::BadInteger);
                            },
                            Some(x) => {
                                if x == -1 {
                                    return Ok((RespDataType::BulkStrings(None), j + 1));
                                }
                                if x < 0 {
                                    return Err(RespError::BadLength);
                                }
                                let start = j + 1;
                                let avail = (n - start) as u64;
                                if avail < (x as u64) + 2 {
                                    return Err(RespError::Incomplete);
                                }
                                let nn = x as usize;
                                let pend = start + nn;
                                proof {
                                    assert(s.subrange(2 + lf, 2 + lf + x) =~= input@.subrange(
                                        start as int,
                                        pend as int,
                                    ));
                                    assert(s.subrange(2 + lf + x, 2 + lf + x + 2) =~= input@
                                        .subrange(pend as int, pend as int + 2));
                                }
                                if input[pend] == 13 && input[pend + 1] == 10 {
                                    proof {
                                        assert(s.subrange(2 + lf + x, 2 + lf + x + 2) =~= crlf());
                                    }
                                    let payload = crate::util::copy_range(input, start, pend);
                                    return Ok((RespDataType::BulkStrings(Some(payload)), pend + 2));
                                } else {
                                    proof {
                                        assert(s.subrange(2 + lf + x, 2 + lf + x + 2) != crlf());
                                    }
                                    return Err(RespError::ExpectedCrlf);
                                }
                            },
                        }
                    }
                    // tag == 42
                    match num {
                        None => {
                            return Err(RespError::BadInteger);
                        },
                        Some(x) => {
                            if x == -1 {
                                return Ok((RespDataType::Arrays(None), j + 1));
                            }
                            if x < 0 {
                                return Err(RespError::BadLength);
                            }
                            let count = x as u64;
                            let start = j + 1;
                            proof {
                                assert(s.subrange(2 + lf, s.len() as int) =~= input@.subrange(
                                    start as int,
                                    n as int,
                                ));
                            }
                            let mut elems: Vec<RespDataType> = Vec::new();
                            let mut cur = start;
                            let mut k: u64 = 0;
                            proof {
                                let r0 = parse_elems(
                                    input@.subrange(start as int, n as int),
                                    count as int,
                                );
                                match r0 {
                                    ElemsOutcome::Found(es, u) => {
                                        assert(deep_seq(elems@) + es =~= es);
                                        assert(deep_seq(elems@) =~= Seq::<ValueView>::empty());
                                    },
                                    ElemsOutcome::Bad => {},
                                    ElemsOutcome::Incomplete => {},
                                }
                            }
                            while k < count
                                invariant
                                    pos < start <= cur <= n,
                                    n == input@.len(),
                                    k <= count,
                                    s == input@.subrange(pos as int, n as int),
                                    (match parse_elems(
                                        input@.subrange(start as int, n as int),
                                        count as int,
                                    ) {
                                        ElemsOutcome::Found(es, u) => parse_value(s)
                                            == ParseOutcome::Found(
                                            ValueView::Arrays(Some(es)),
                                            (start - pos) + u,
                                        ),
                                        ElemsOutcome::Bad => parse_value(s) is Bad,
                                        ElemsOutcome::Incomplete => parse_value(s) is Incomplete,
                                    }),
                                    elems_combine(
                                        deep_seq(elems@),
                                        cur - start,
                                        parse_elems(
                                            input@.subrange(cur as int, n as int),
                                            count - k,
                                        ),
                                    ) == parse_elems(
                                        input@.subrange(start as int, n as int),
                                        count as int,
                                    ),
                                decreases count - k,
                            {
                                let ghost scur = input@.subrange(cur as int, n as int);
                                let step = RespDataType::deserialize(input, cur);
                                match step {
                                    Err(e) => {
                                        proof {
                                            let m = count - k;
                                            assert(parse_elems(scur, m as int) is Bad
                                                || parse_elems(scur, m as int) is Incomplete);
                                        }
                                        return Err(e);
                                    },
                                    Ok((v, newend)) => {
                                        proof {
                                            let m = count - k;
                                            let used = newend as int - cur as int;
                                            assert(scur.subrange(used, scur.len() as int)
                                                =~= input@.subrange(newend as int, n as int));
                                            let inner = parse_elems(
                                                input@.subrange(newend as int, n as int),
                                                m - 1,
                                            );
                                            assert(parse_elems(scur, m) == elems_combine(
                                                seq![v.deep()],
                                                used,
                                                inner,
                                            ));
                                            lemma_combine_assoc(
                                                deep_seq(elems@),
                                                cur - start,
                                                seq![v.deep()],
                                                used,
                                                inner,
                                            );
                                            lemma_deep_seq_push(elems@, v);
                                        }
                                        elems.push(v);
                                        cur = newend;
                                        k = k + 1;
                                    },
                                }
                            }
                            proof {
                                let rtail = parse_elems(input@.subrange(cur as int, n as int), 0);
                                assert(rtail == ElemsOutcome::Found(Seq::<ValueView>::empty(), 0));
                                assert(deep_seq(elems@) + Seq::<ValueView>::empty() =~= deep_seq(
                                    elems@,
                                ));
                            }
                            return Ok((RespDataType::Arrays(Some(elems)), cur));
                        },
                    }
                },
            }
        } else {
            return Err(RespError::UnknownTag);
        }
    }
}

} // verus!
