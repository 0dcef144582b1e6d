//! Canonical JSON codec for payload scalars and flat objects.
//!
//! The serializer emits compact JSON without whitespace: strings escape only
//! the quote and the backslash, numbers are their tokens, and an object is a
//! comma-separated list of `"key":value` pairs. The parser reads exactly this
//! canonical form, and a round-trip proof shows that parsing a serialized
//! object recovers it field for field.

use vstd::prelude::*;
use vstd::string::StringSliceAdditionalSpecFns;
use vstd::string::StrSliceExecFns;
use vstd::utf8::{encode_utf8, decode_utf8, valid_utf8};
use crate::value::{Value, SpecValue, vview, sv_wf, is_num_byte, num_token_ok};

verus! {

/// Rebuilds the string whose UTF-8 encoding is the given bytes.
/// Relies on `String::from_utf8`: it succeeds exactly on valid UTF-8 and
/// decodes it.
#[verifier::external_body]
pub(crate) fn string_from_utf8(bytes: Vec<u8>) -> (r: Option<String>)
    ensures
        match r {
            Some(s) => valid_utf8(bytes@) && s@ == decode_utf8(bytes@),
            None => !valid_utf8(bytes@),
        },
{
    String::from_utf8(bytes).ok()
}

/// Byte-escaping for string content: quote and backslash get a backslash
/// prefix, all other bytes pass through.
pub open spec fn escape(b: Seq<u8>) -> Seq<u8>
    decreases b.len(),
{
    if b.len() == 0 {
        Seq::empty()
    } else {
        (if b[0] == 34 || b[0] == 92 {
            seq![92u8, b[0]]
        } else {
            seq![b[0]]
        }) + escape(b.drop_first())
    }
}

/// Serialized form of one scalar.
pub open spec fn jser_value(sv: SpecValue) -> Seq<u8> {
    match sv {
        SpecValue::Null => seq![110u8, 117u8, 108u8, 108u8],
        SpecValue::Bool(b) => if b {
            seq![116u8, 114u8, 117u8, 101u8]
        } else {
            seq![102u8, 97u8, 108u8, 115u8, 101u8]
        },
        SpecValue::Num(t) => t,
        SpecValue::Str(s) => seq![34u8] + escape(encode_utf8(s)) + seq![34u8],
    }
}

/// Serialized form of the fields of a flat object, commas between fields.
pub open spec fn jser_fields(fs: Seq<(Seq<char>, SpecValue)>) -> Seq<u8>
    decreases fs.len(),
{
    if fs.len() == 0 {
        Seq::empty()
    } else {
        seq![34u8] + escape(encode_utf8(fs[0].0)) + seq![34u8, 58u8] + jser_value(fs[0].1) + (
        if fs.len() > 1 {
            seq![44u8]
        } else {
            Seq::empty()
        }) + jser_fields(fs.drop_first())
    }
}

/// Serialized form of a flat object.
pub open spec fn jser_obj(fs: Seq<(Seq<char>, SpecValue)>) -> Seq<u8> {
    seq![123u8] + jser_fields(fs) + seq![125u8]
}

// --- the parser, as a specification ---

/// Content of a string literal from position `i` up to its closing quote:
/// the unescaped bytes and the position after the quote.
pub open spec fn jparse_string(b: Seq<u8>, i: int) -> Option<(Seq<u8>, int)>
    decreases b.len() - i,
{
    if i < 0 || i >= b.len() {
        None
    } else if b[i] == 34 {
        Some((Seq::empty(), i + 1))
    } else if b[i] == 92 {
        if i + 1 < b.len() && (b[i + 1] == 34 || b[i + 1] == 92) {
            match jparse_string(b, i + 2) {
                Some((c, j)) => Some((seq![b[i + 1]] + c, j)),
                None => None,
            }
        } else {
            None
        }
    } else {
        match jparse_string(b, i + 1) {
            Some((c, j)) => Some((seq![b[i]] + c, j)),
            None => None,
        }
    }
}

/// First position at or after `i` whose byte is not a numeric token byte.
pub open spec fn scan_num_end(b: Seq<u8>, i: int) -> int
    decreases b.len() - i,
{
    if i < 0 || i >= b.len() {
        b.len() as int
    } else if !is_num_byte(b[i]) {
        i
    } else {
        scan_num_end(b, i + 1)
    }
}

/// One scalar from position `i`: the scalar and the position after it.
pub open spec fn jparse_value(b: Seq<u8>, i: int) -> Option<(SpecValue, int)> {
    if i < 0 || i >= b.len() {
        None
    } else if b[i] == 110 {
        if i + 4 <= b.len() && b[i + 1] == 117 && b[i + 2] == 108 && b[i + 3] == 108 {
            Some((SpecValue::Null, i + 4))
        } else {
            None
        }
    } else if b[i] == 116 {
        if i + 4 <= b.len() && b[i + 1] == 114 && b[i + 2] == 117 && b[i + 3] == 101 {
            Some((SpecValue::Bool(true), i + 4))
        } else {
            None
        }
    } else if b[i] == 102 {
        if i + 5 <= b.len() && b[i + 1] == 97 && b[i + 2] == 108 && b[i + 3] == 115 && b[i + 4]
            == 101 {
            Some((SpecValue::Bool(false), i + 5))
        } else {
            None
        }
    } else if b[i] == 34 {
        match jparse_string(b, i + 1) {
            Some((c, j)) => if valid_utf8(c) {
                Some((SpecValue::Str(decode_utf8(c)), j))
            } else {
                None
            },
            None => None,
        }
    } else if b[i] == 45 || crate::bytes::is_digit(b[i]) {
        let j = scan_num_end(b, i);
        let t = b.subrange(i, j);
        if num_token_ok(t) {
            Some((SpecValue::Num(t), j))
        } else {
            None
        }
    } else {
        None
    }
}

/// The fields of a flat object from position `i` (after the opening brace,
/// at least one field): the fields and the position after the closing brace.
pub open spec fn jparse_fields(b: Seq<u8>, i: int) -> Option<(Seq<(Seq<char>, SpecValue)>, int)>
    decreases b.len() - i,
{
    if i < 0 || i >= b.len() || b[i] != 34 {
        None
    } else {
        match jparse_string(b, i + 1) {
            Some((kb, j)) => if valid_utf8(kb) && j < b.len() && b[j] == 58 {
                match jparse_value(b, j + 1) {
                    Some((v, m)) => if m < b.len() && b[m] == 44 {
                        if i < m + 1 {
                            match jparse_fields(b, m + 1) {
                                Some((rest, e)) => Some(
                                    (seq![(decode_utf8(kb), v)] + rest, e),
                                ),
                                None => None,
                            }
                        } else {
                            None
                        }
                    } else if m < b.len() && b[m] == 125 {
                        Some((seq![(decode_utf8(kb), v)], m + 1))
                    } else {
                        None
                    },
                    None => None,
                }
            } else {
                None
            },
            None => None,
        }
    }
}

/// A flat object from position `i`: its fields and the position after it.
#[verifier::opaque]
pub open spec fn jparse_obj(b: Seq<u8>, i: int) -> Option<(Seq<(Seq<char>, SpecValue)>, int)> {
    if i < 0 || i >= b.len() || b[i] != 123 {
        None
    } else if i + 1 < b.len() && b[i + 1] == 125 {
        Some((Seq::empty(), i + 2))
    } else {
        jparse_fields(b, i + 1)
    }
}

// --- executable serializer ---

/// Appends the escaped form of `src` to `out`.
fn push_escaped(out: &mut Vec<u8>, src: &[u8])
    ensures
        final(out)@ == old(out)@ + escape(src@),
    decreases src@.len(),
{
    let mut i: usize = 0;
    while i < src.len()
        invariant
            0 <= i <= src@.len(),
            out@ == old(out)@ + escape(src@.subrange(0, i as int)),
        decreases src@.len() - i,
    {
        let c = src[i];
        if c == 34 || c == 92 {
            out.push(92);
        }
        out.push(c);
        proof {
            let pre = src@.subrange(0, i as int);
            let nxt = src@.subrange(0, i + 1);
            lemma_escape_snoc(pre, src@[i as int]);
            assert(nxt =~= pre + seq![src@[i as int]]);
            assert(out@ =~= old(out)@ + escape(nxt));
        }
        i += 1;
    }
    proof {
        assert(src@.subrange(0, src@.len() as int) =~= src@);
    }
}

/// Escaping distributes over appending one byte.
proof fn lemma_escape_snoc(pre: Seq<u8>, c: u8)
    ensures
        escape(pre + seq![c]) == escape(pre) + (if c == 34 || c == 92 {
            seq![92u8, c]
        } else {
            seq![c]
        }),
    decreases pre.len(),
{
    let whole = pre + seq![c];
    if pre.len() == 0 {
        assert(whole =~= seq![c]);
        assert(whole.drop_first() =~= Seq::<u8>::empty());
        assert(escape(whole) =~= escape(pre) + (if c == 34 || c == 92 {
            seq![92u8, c]
        } else {
            seq![c]
        }));
    } else {
        lemma_escape_snoc(pre.drop_first(), c);
        assert(whole.drop_first() =~= pre.drop_first() + seq![c]);
        assert(whole[0] == pre[0]);
        let hd = if pre[0] == 34 || pre[0] == 92 {
            seq![92u8, pre[0]]
        } else {
            seq![pre[0]]
        };
        let tl = if c == 34 || c == 92 {
            seq![92u8, c]
        } else {
            seq![c]
        };
        assert(escape(whole) == hd + escape(whole.drop_first()));
        assert(escape(whole.drop_first()) == escape(pre.drop_first() + seq![c]));
        assert(escape(pre.drop_first() + seq![c]) == escape(pre.drop_first()) + tl);
        assert(escape(pre) == hd + escape(pre.drop_first()));
        assert(escape(whole) =~= escape(pre) + tl);
    }
}

/// Appends the serialized form of one scalar to `out`.
pub fn ser_value(out: &mut Vec<u8>, v: &Value)
    ensures
        final(out)@ == old(out)@ + jser_value(vview(*v)),
{
    match v {
        Value::Null => {
            out.push(110);
            out.push(117);
            out.push(108);
            out.push(108);
            proof {
                assert(out@ =~= old(out)@ + jser_value(vview(*v)));
            }
        },
        Value::Bool(b) => {
            if *b {
                out.push(116);
                out.push(114);
                out.push(117);
                out.push(101);
            } else {
                out.push(102);
                out.push(97);
                out.push(108);
                out.push(115);
                out.push(101);
            }
            proof {
                assert(out@ =~= old(out)@ + jser_value(vview(*v)));
            }
        },
        Value::Num(t) => {
            let mut i: usize = 0;
            while i < t.len()
                invariant
                    0 <= i <= t@.len(),
                    out@ == old(out)@ + t@.subrange(0, i as int),
                decreases t@.len() - i,
            {
                out.push(t[i]);
                proof {
                    assert(out@ =~= old(out)@ + t@.subrange(0, i + 1));
                }
                i += 1;
            }
            proof {
                assert(t@.subrange(0, t@.len() as int) =~= t@);
                assert(out@ =~= old(out)@ + jser_value(vview(*v)));
            }
        },
        Value::Str(s) => {
            out.push(34);
            let sb = s.as_str().as_bytes_vec();
            push_escaped(out, sb.as_slice());
            out.push(34);
            proof {
                assert(out@ =~= old(out)@ + jser_value(vview(*v)));
            }
        },
    }
}

/// Appends `"key":` to `out`.
fn ser_key(out: &mut Vec<u8>, k: &String)
    ensures
        final(out)@ == old(out)@ + seq![34u8] + escape(encode_utf8(k@)) + seq![34u8, 58u8],
{
    out.push(34);
    let kb = k.as_str().as_bytes_vec();
    push_escaped(out, kb.as_slice());
    out.push(34);
    out.push(58);
    proof {
        assert(out@ =~= old(out)@ + seq![34u8] + escape(encode_utf8(k@)) + seq![34u8, 58u8]);
    }
}

/// View of a field list.
pub open spec fn fields_view(fs: Seq<(String, Value)>) -> Seq<(Seq<char>, SpecValue)> {
    fs.map_values(|p: (String, Value)| (p.0@, vview(p.1)))
}

/// Serializes a flat object.
pub fn ser_obj(fields: &Vec<(String, Value)>) -> (r: Vec<u8>)
    ensures
        r@ == jser_obj(fields_view(fields@)),
{
    let mut out: Vec<u8> = Vec::new();
    out.push(123);
    let n = fields.len();
    let mut i: usize = 0;
    proof {
        assert(out@ =~= seq![123u8]);
    }
    while i < n
        invariant
            0 <= i <= n,
            n == fields@.len(),
            out@ == seq![123u8] + jser_fields_prefix(fields_view(fields@), i as int),
        decreases n - i,
    {
        ser_key(&mut out, &fields[i].0);
        ser_value(&mut out, &fields[i].1);
        if i + 1 < n {
            out.push(44);
        }
        proof {
            lemma_jser_fields_prefix_step(fields_view(fields@), i as int);
            assert(fields_view(fields@)[i as int] == (fields@[i as int].0@, vview(
                fields@[i as int].1,
            )));
            assert(out@ =~= seq![123u8] + jser_fields_prefix(fields_view(fields@), i + 1));
        }
        i += 1;
    }
    out.push(125);
    proof {
        lemma_jser_fields_prefix_all(fields_view(fields@));
        assert(out@ =~= jser_obj(fields_view(fields@)));
    }
    out
}

/// Serialized form of the first `i` fields, with a trailing comma when more
/// follow.
pub open spec fn jser_fields_prefix(fs: Seq<(Seq<char>, SpecValue)>, i: int) -> Seq<u8>
    decreases i,
{
    if i <= 0 {
        Seq::empty()
    } else {
        jser_fields_prefix(fs, i - 1) + seq![34u8] + escape(encode_utf8(fs[i - 1].0)) + seq![
            34u8,
            58u8,
        ] + jser_value(fs[i - 1].1) + (if i < fs.len() {
            seq![44u8]
        } else {
            Seq::empty()
        })
    }
}

proof fn lemma_jser_fields_prefix_step(fs: Seq<(Seq<char>, SpecValue)>, i: int)
    requires
        0 <= i < fs.len(),
    ensures
        jser_fields_prefix(fs, i + 1) == jser_fields_prefix(fs, i) + seq![34u8] + escape(
            encode_utf8(fs[i].0),
        ) + seq![34u8, 58u8] + jser_value(fs[i].1) + (if i + 1 < fs.len() {
            seq![44u8]
        } else {
            Seq::<u8>::empty()
        }),
{
}

/// The field-by-field prefix form agrees with the recursive serialization.
proof fn lemma_jser_fields_prefix_all(fs: Seq<(Seq<char>, SpecValue)>)
    ensures
        jser_fields_prefix(fs, fs.len() as int) == jser_fields(fs),
    decreases fs.len(),
{
    if fs.len() > 0 {
        lemma_jser_fields_prefix_all(fs.drop_first());
        lemma_jser_fields_prefix_shift(fs, fs.len() as int);
    }
}

/// Prefixes of the tail relate to prefixes of the whole list.
proof fn lemma_jser_fields_prefix_shift(fs: Seq<(Seq<char>, SpecValue)>, i: int)
    requires
        1 <= i <= fs.len(),
    ensures
        jser_fields_prefix(fs, i) == seq![34u8] + escape(encode_utf8(fs[0].0)) + seq![34u8, 58u8]
            + jser_value(fs[0].1) + (if 1 < fs.len() {
            seq![44u8]
        } else {
            Seq::<u8>::empty()
        }) + jser_fields_prefix(fs.drop_first(), i - 1),
    decreases i,
{
    if i == 1 {
        assert(jser_fields_prefix(fs, 0) =~= Seq::<u8>::empty());
        assert(jser_fields_prefix(fs.drop_first(), 0) =~= Seq::<u8>::empty());
        assert(jser_fields_prefix(fs, 1) =~= seq![34u8] + escape(encode_utf8(fs[0].0)) + seq![
            34u8,
            58u8,
        ] + jser_value(fs[0].1) + (if 1 < fs.len() {
            seq![44u8]
        } else {
            Seq::<u8>::empty()
        }) + jser_fields_prefix(fs.drop_first(), 0));
    } else {
        lemma_jser_fields_prefix_shift(fs, i - 1);
        assert(fs.drop_first()[i - 2] == fs[i - 1]);
        assert(fs.drop_first().len() == fs.len() - 1);
        assert(jser_fields_prefix(fs, i) =~= seq![34u8] + escape(encode_utf8(fs[0].0)) + seq![
            34u8,
            58u8,
        ] + jser_value(fs[0].1) + (if 1 < fs.len() {
            seq![44u8]
        } else {
            Seq::<u8>::empty()
        }) + jser_fields_prefix(fs.drop_first(), i - 1));
    }
}

// --- executable parser ---

/// Reads a string literal's content from `i` up to its closing quote.
fn parse_string_exec(b: &[u8], i: usize) -> (r: Option<(Vec<u8>, usize)>)
    requires
        i <= b@.len(),
    ensures
        match r {
            Some((c, j)) => jparse_string(b@, i as int) == Some((c@, j as int)) && i < j
                <= b@.len(),
            None => jparse_string(b@, i as int) is None,
        },
{
    let n = b.len();
    let mut out: Vec<u8> = Vec::new();
    let mut cur: usize = i;
    loop
        invariant
            i <= cur <= n,
            n == b@.len(),
            jparse_string(b@, i as int) == (match jparse_string(b@, cur as int) {
                Some((c, j)) => Some((out@ + c, j)),
                None => None::<(Seq<u8>, int)>,
            }),
        decreases n - cur,
    {
        if cur >= n {
            return None;
        }
        let c = b[cur];
        if c == 34 {
            proof {
                assert(out@ + Seq::<u8>::empty() =~= out@);
            }
            return Some((out, cur + 1));
        }
        if c == 92 {
            if cur + 1 < n && (b[cur + 1] == 34 || b[cur + 1] == 92) {
                let ghost prev = out@;
                out.push(b[cur + 1]);
                proof {
                    assert(forall|cc: Seq<u8>| prev + (seq![b@[cur + 1]] + cc) =~= out@ + cc);
                }
                cur = cur + 2;
            } else {
                return None;
            }
        } else {
            let ghost prev = out@;
            out.push(c);
            proof {
                assert(forall|cc: Seq<u8>| prev + (seq![b@[cur as int]] + cc) =~= out@ + cc);
            }
            cur = cur + 1;
        }
    }
}

/// Scans to the end of a numeric token.
fn scan_num_end_exec(b: &[u8], i: usize) -> (r: usize)
    requires
        i <= b@.len(),
    ensures
        r == scan_num_end(b@, i as int),
        i <= r <= b@.len(),
{
    let n = b.len();
    let mut cur: usize = i;
    loop
        invariant
            i <= cur <= n,
            n == b@.len(),
            scan_num_end(b@, i as int) == scan_num_end(b@, cur as int),
        decreases n - cur,
    {
        if cur >= n {
            return cur;
        }
        let c = b[cur];
        if !(c == 45 || c == 46 || (48 <= c && c <= 57)) {
            proof {
                assert(!is_num_byte(b@[cur as int]));
            }
            return cur;
        }
        cur += 1;
    }
}

/// Reads one scalar from position `i`.
pub fn parse_value_exec(b: &[u8], i: usize) -> (r: Option<(Value, usize)>)
    requires
        i <= b@.len(),
    ensures
        match r {
            Some((v, j)) => jparse_value(b@, i as int) == Some((vview(v), j as int)) && i < j
                <= b@.len() && sv_wf(vview(v)),
            None => jparse_value(b@, i as int) is None,
        },
{
    let n = b.len();
    if i >= n {
        return None;
    }
    let c = b[i];
    if c == 110 {
        if n - i >= 4 && b[i + 1] == 117 && b[i + 2] == 108 && b[i + 3] == 108 {
            Some((Value::Null, i + 4))
        } else {
            None
        }
    } else if c == 116 {
        if n - i >= 4 && b[i + 1] == 114 && b[i + 2] == 117 && b[i + 3] == 101 {
            Some((Value::Bool(true), i + 4))
        } else {
            None
        }
    } else if c == 102 {
        if n - i >= 5 && b[i + 1] == 97 && b[i + 2] == 108 && b[i + 3] == 115 && b[i + 4] == 101 {
            Some((Value::Bool(false), i + 5))
        } else {
            None
        }
    } else if c == 34 {
        match parse_string_exec(b, i + 1) {
            Some((content, j)) => {
                match string_from_utf8(content) {
                    Some(s) => Some((Value::Str(s), j)),
                    None => None,
                }
            },
            None => None,
        }
    } else if c == 45 || (48 <= c && c <= 57) {
        let j = scan_num_end_exec(b, i);
        let mut t: Vec<u8> = Vec::new();
        let mut k: usize = i;
        while k < j
            invariant
                i <= k <= j <= b@.len(),
                t@ == b@.subrange(i as int, k as int),
            decreases j - k,
        {
            t.push(b[k]);
            proof {
                assert(t@ =~= b@.subrange(i as int, k + 1));
            }
            k += 1;
        }
        // validate the token shape
        if !crate::value::token_ok_check(&t) {
            proof {
                assert(!num_token_ok(b@.subrange(i as int, j as int)));
            }
            return None;
        }
        proof {
            lemma_scan_all_num(b@, i as int, j as int);
            assert(num_token_ok(b@.subrange(i as int, j as int)));
            assert(i < j) by {
                assert(is_num_byte(b@[i as int]));
                assert(scan_num_end(b@, i as int) > i);
            }
        }
        Some((Value::Num(t), j))
    } else {
        None
    }
}

/// Every byte the numeric scan passed over is a numeric byte.
proof fn lemma_scan_all_num(b: Seq<u8>, i: int, j: int)
    requires
        0 <= i <= b.len(),
        j == scan_num_end(b, i),
    ensures
        i <= j <= b.len(),
        forall|k: int| i <= k < j ==> is_num_byte(#[trigger] b[k]),
    decreases b.len() - i,
{
    if 0 <= i < b.len() && is_num_byte(b[i]) {
        lemma_scan_all_num(b, i + 1, j);
    }
}

/// Reads a flat object from position `i`.
pub fn parse_obj_exec(b: &[u8], i: usize) -> (r: Option<(Vec<(String, Value)>, usize)>)
    requires
        i <= b@.len(),
    ensures
        match r {
            Some((fs, j)) => jparse_obj(b@, i as int) == Some((fields_view(fs@), j as int)) && i
                < j <= b@.len() && (forall|k: int|
                0 <= k < fs@.len() ==> sv_wf(#[trigger] fields_view(fs@)[k].1)),
            None => jparse_obj(b@, i as int) is None,
        },
{
    proof {
        reveal(jparse_obj);
    }
    let n = b.len();
    if i >= n || b[i] != 123 {
        return None;
    }
    if i + 1 < n && b[i + 1] == 125 {
        let fs: Vec<(String, Value)> = Vec::new();
        proof {
            assert(fields_view(fs@) =~= Seq::<(Seq<char>, SpecValue)>::empty());
        }
        return Some((fs, i + 2));
    }
    let mut fs: Vec<(String, Value)> = Vec::new();
    let mut cur: usize = i + 1;
    loop
        invariant
            i + 1 <= cur <= n,
            n == b@.len(),
            forall|k: int| 0 <= k < fs@.len() ==> sv_wf(#[trigger] fields_view(fs@)[k].1),
            jparse_obj(b@, i as int) == (match jparse_fields(b@, cur as int) {
                Some((rest, e)) => Some((fields_view(fs@) + rest, e)),
                None => None::<(Seq<(Seq<char>, SpecValue)>, int)>,
            }),
        decreases n - cur,
    {
        if cur >= n || b[cur] != 34 {
            return None;
        }
        let key = match parse_string_exec(b, cur + 1) {
            Some((kb, j)) => {
                match string_from_utf8(kb) {
                    Some(s) => (s, j),
                    None => { return None; },
                }
            },
            None => { return None; },
        };
        let (k, j) = key;
        if j >= n || b[j] != 58 {
            return None;
        }
        let (v, m) = match parse_value_exec(b, j + 1) {
            Some(x) => x,
            None => { return None; },
        };
        let ghost old_fs = fs@;
        fs.push((k, v));
        proof {
            assert(fields_view(fs@) =~= fields_view(old_fs) + seq![(k@, vview(v))]);
        }
        if m < n && b[m] == 44 {
            proof {
                assert(forall|rest: Seq<(Seq<char>, SpecValue)>|
                    fields_view(old_fs) + (seq![(k@, vview(v))] + rest) =~= fields_view(fs@)
                        + rest);
            }
            cur = m + 1;
        } else if m < n && b[m] == 125 {
            proof {
                assert(fields_view(old_fs) + seq![(k@, vview(v))] =~= fields_view(fs@));
            }
            return Some((fs, m + 1));
        } else {
            return None;
        }
    }
}

// --- round trip: parsing a serialized form recovers it ---

/// Parsing from `i` recovers a string whose escaped content and closing
/// quote stand at `i`.
proof fn lemma_roundtrip_string(s: Seq<u8>, b: Seq<u8>, i: int)
    requires
        0 <= i,
        i + escape(s).len() + 1 <= b.len(),
        b.subrange(i, i + escape(s).len() + 1) == escape(s) + seq![34u8],
        forall|k: int| 0 <= k < s.len() ==> s[k] != 34 || true,
    ensures
        jparse_string(b, i) == Some((s, i + escape(s).len() + 1)),
    decreases s.len(),
{
    let e = escape(s);
    let sub = b.subrange(i, i + e.len() + 1);
    assert(forall|k: int| 0 <= k < sub.len() ==> sub[k] == b[i + k]);
    if s.len() == 0 {
        assert(sub[0] == 34);
        assert(b[i] == 34);
    } else {
        let hd = if s[0] == 34 || s[0] == 92 {
            seq![92u8, s[0]]
        } else {
            seq![s[0]]
        };
        assert(e == hd + escape(s.drop_first()));
        let e2 = escape(s.drop_first());
        if s[0] == 34 || s[0] == 92 {
            assert(sub[0] == e[0] && sub[1] == e[1]);
            assert(b[i] == e[0] && e[0] == 92);
            assert(b[i + 1] == e[1] && e[1] == s[0]);
            assert(b.subrange(i + 2, i + 2 + e2.len() + 1) =~= e2 + seq![34u8]) by {
                assert(forall|k: int|
                    0 <= k < e2.len() + 1 ==> #[trigger] b.subrange(i + 2, i + 2 + e2.len() + 1)[k] == sub[k + 2]);
            }
            lemma_roundtrip_string(s.drop_first(), b, i + 2);
            assert(seq![b[i + 1]] + s.drop_first() =~= s);
        } else {
            assert(sub[0] == e[0]);
            assert(b[i] == e[0] && e[0] == s[0]);
            assert(s[0] != 34 && s[0] != 92);
            assert(b.subrange(i + 1, i + 1 + e2.len() + 1) =~= e2 + seq![34u8]) by {
                assert(forall|k: int|
                    0 <= k < e2.len() + 1 ==> #[trigger] b.subrange(i + 1, i + 1 + e2.len() + 1)[k] == sub[k + 1]);
            }
            lemma_roundtrip_string(s.drop_first(), b, i + 1);
            assert(seq![b[i]] + s.drop_first() =~= s);
        }
    }
}

/// The numeric scan stops exactly at the end of a well-formed token followed
/// by a non-numeric byte or the end of input.
proof fn lemma_scan_token(t: Seq<u8>, b: Seq<u8>, i: int)
    requires
        0 <= i,
        i + t.len() <= b.len(),
        b.subrange(i, i + t.len()) == t,
        forall|k: int| 0 <= k < t.len() ==> is_num_byte(#[trigger] t[k]),
        i + t.len() == b.len() || !is_num_byte(b[i + t.len()]),
    ensures
        scan_num_end(b, i) == i + t.len(),
    decreases t.len(),
{
    if t.len() == 0 {
    } else {
        assert(b[i] == t[0]);
        assert(is_num_byte(b[i]));
        assert(b.subrange(i + 1, i + 1 + t.drop_first().len()) =~= t.drop_first()) by {
            assert(forall|k: int|
                0 <= k < t.len() - 1 ==> #[trigger] b.subrange(i + 1, i + t.len())[k] == b.subrange(
                    i,
                    i + t.len(),
                )[k + 1]);
        }
        lemma_scan_token(t.drop_first(), b, i + 1);
    }
}

/// Parsing from `i` recovers a well-formed scalar whose serialized form
/// stands at `i`, when the byte after it (if any) is not a numeric byte.
pub proof fn lemma_roundtrip_value(sv: SpecValue, b: Seq<u8>, i: int)
    requires
        sv_wf(sv),
        0 <= i,
        i + jser_value(sv).len() <= b.len(),
        b.subrange(i, i + jser_value(sv).len()) == jser_value(sv),
        i + jser_value(sv).len() == b.len() || !is_num_byte(b[i + jser_value(sv).len()]),
    ensures
        jparse_value(b, i) == Some((sv, i + jser_value(sv).len())),
{
    let e = jser_value(sv);
    let sub = b.subrange(i, i + e.len());
    assert(forall|k: int| 0 <= k < sub.len() ==> sub[k] == b[i + k]);
    match sv {

        SpecValue::Null => {
            assert(sub[0] == 110 && sub[1] == 117 && sub[2] == 108 && sub[3] == 108);
            assert(b[i] == 110 && b[i + 1] == 117 && b[i + 2] == 108 && b[i + 3] == 108);
        },
        SpecValue::Bool(v) => {
            if v {
                assert(sub[0] == 116 && sub[1] == 114 && sub[2] == 117 && sub[3] == 101);
                assert(b[i] == 116 && b[i + 1] == 114 && b[i + 2] == 117 && b[i + 3] == 101);
            } else {
                assert(sub[0] == 102 && sub[1] == 97 && sub[2] == 108 && sub[3] == 115 && sub[4]
                    == 101);
                assert(b[i] == 102 && b[i + 1] == 97 && b[i + 2] == 108 && b[i + 3] == 115 && b[
                    i + 4] == 101);
            }
        },
        SpecValue::Num(t) => {
            crate::value::lemma_token_bytes(t);
            lemma_scan_token(t, b, i);
            assert(sub[0] == t[0]);
            assert(b[i] == t[0]);
            assert(t[0] == 45 || crate::bytes::is_digit(t[0]));
            assert(b[i] != 110 && b[i] != 116 && b[i] != 102 && b[i] != 34);
            assert(b.subrange(i, scan_num_end(b, i)) == t);
        },
        SpecValue::Str(s) => {
            let sb = encode_utf8(s);
            assert(sub[0] == 34);
            assert(b[i] == 34);
            assert(b.subrange(i + 1, i + 1 + escape(sb).len() + 1) =~= escape(sb) + seq![34u8])
                by {
                assert(forall|k: int|
                    0 <= k < escape(sb).len() + 1 ==> #[trigger] b.subrange(
                        i + 1,
                        i + 1 + escape(sb).len() + 1,
                    )[k] == sub[k + 1]);
            }
            lemma_roundtrip_string(sb, b, i + 1);
            broadcast use vstd::utf8::encode_utf8_valid_utf8, vstd::utf8::encode_utf8_decode_utf8;

            assert(valid_utf8(sb));
            assert(decode_utf8(sb) == s);
        },
    }
}

/// Parsing fields from `i` recovers a non-empty well-formed field list whose
/// serialized form, closed by a brace, stands at `i`.
proof fn lemma_roundtrip_fields(fs: Seq<(Seq<char>, SpecValue)>, b: Seq<u8>, i: int)
    requires
        fs.len() >= 1,
        forall|k: int| 0 <= k < fs.len() ==> sv_wf(#[trigger] fs[k].1),
        0 <= i,
        i + jser_fields(fs).len() + 1 <= b.len(),
        b.subrange(i, i + jser_fields(fs).len() + 1) == jser_fields(fs) + seq![125u8],
    ensures
        jparse_fields(b, i) == Some((fs, i + jser_fields(fs).len() + 1)),
    decreases fs.len(),
{
    let kb = encode_utf8(fs[0].0);
    let ke = escape(kb);
    let ve = jser_value(fs[0].1);
    let whole = jser_fields(fs) + seq![125u8];
    let sub = b.subrange(i, i + whole.len());
    assert(forall|k: int| 0 <= k < sub.len() ==> sub[k] == b[i + k]);
    assert(sub[0] == 34);
    assert(b[i] == 34);
    // key string
    assert(b.subrange(i + 1, i + 1 + ke.len() + 1) =~= ke + seq![34u8]) by {
        assert(forall|k: int|
            0 <= k < ke.len() + 1 ==> #[trigger] b.subrange(i + 1, i + 1 + ke.len() + 1)[k] == sub[k + 1]);
    }
    lemma_roundtrip_string(kb, b, i + 1);
    broadcast use vstd::utf8::encode_utf8_valid_utf8, vstd::utf8::encode_utf8_decode_utf8;

    let j = i + 1 + ke.len() + 1;
    assert(b[j] == 58) by {
        assert(sub[j - i] == 58);
    }
    // value
    assert(b.subrange(j + 1, j + 1 + ve.len()) =~= ve) by {
        assert(forall|k: int|
            0 <= k < ve.len() ==> #[trigger] b.subrange(j + 1, j + 1 + ve.len())[k] == sub[k + (j + 1 - i)]);
    }
    let m = j + 1 + ve.len();
    let pre = seq![34u8] + ke + seq![34u8, 58u8] + ve;
    assert(pre.len() == ke.len() + ve.len() + 3);
    assert(m - i == pre.len());
    if fs.len() > 1 {
        assert(jser_fields(fs) =~= pre + seq![44u8] + jser_fields(fs.drop_first()));
        assert((pre + seq![44u8])[pre.len() as int] == 44);
        assert(jser_fields(fs)[m - i] == 44);
        assert(sub[m - i] == 44);
        assert(b[m] == 44);
    } else {
        assert(jser_fields(fs.drop_first()) =~= Seq::<u8>::empty());
        assert(jser_fields(fs) =~= pre);
        assert(m - i == jser_fields(fs).len());
        assert(sub[m - i] == 125);
        assert(b[m] == 125);
    }
    lemma_roundtrip_value(fs[0].1, b, j + 1);
    if fs.len() > 1 {
        let rest = fs.drop_first();
        assert(b.subrange(m + 1, m + 1 + jser_fields(rest).len() + 1) =~= jser_fields(rest)
            + seq![125u8]) by {
            assert(forall|k: int|
                0 <= k < jser_fields(rest).len() + 1 ==> #[trigger] b.subrange(
                    m + 1,
                    m + 1 + jser_fields(rest).len() + 1,
                )[k] == sub[k + (m + 1 - i)]);
        }
        lemma_roundtrip_fields(rest, b, m + 1);
        assert(seq![(decode_utf8(kb), fs[0].1)] + rest =~= fs);
    } else {
        assert(seq![(decode_utf8(kb), fs[0].1)] =~= fs);
    }
}

/// Parsing an object from `i` recovers a well-formed field list whose
/// serialized form stands at `i`.
pub proof fn lemma_roundtrip_obj(fs: Seq<(Seq<char>, SpecValue)>, b: Seq<u8>, i: int)
    requires
        forall|k: int| 0 <= k < fs.len() ==> sv_wf(#[trigger] fs[k].1),
        0 <= i,
        i + jser_obj(fs).len() <= b.len(),
        b.subrange(i, i + jser_obj(fs).len()) == jser_obj(fs),
    ensures
        jparse_obj(b, i) == Some((fs, i + jser_obj(fs).len())),
{
    reveal(jparse_obj);
    let whole = jser_obj(fs);
    let sub = b.subrange(i, i + whole.len());
    assert(forall|k: int| 0 <= k < sub.len() ==> sub[k] == b[i + k]);
    assert(sub[0] == 123);
    assert(b[i] == 123);
    if fs.len() == 0 {
        assert(jser_fields(fs) =~= Seq::<u8>::empty());
        assert(b[i + 1] == 125) by {
            assert(sub[1] == 125);
        }
    } else {
        assert(jser_fields(fs).len() >= 1);
        assert(b[i + 1] == 34) by {
            assert(sub[1] == jser_fields(fs)[0]);
        }
        assert(b.subrange(i + 1, i + 1 + jser_fields(fs).len() + 1) =~= jser_fields(fs) + seq![125u8]) by {
            assert(forall|k: int|
                0 <= k < jser_fields(fs).len() + 1 ==> #[trigger] b.subrange(
                    i + 1,
                    i + 1 + jser_fields(fs).len() + 1,
                )[k] == sub[k + 1]);
        }
        lemma_roundtrip_fields(fs, b, i + 1);
    }
}

} // verus!
