//! Executing a plan against buffered input: literals, patterns, and the
//! values they yield.
use vstd::prelude::*;
use vstd::string::StringSliceAdditionalSpecFns;
use vstd::utf8::*;
use crate::error::{ScanError, Utf8Error};
use crate::reader::ByteReader;
use crate::utf8::{
    lemma_valid_prefix,
    lemma_prefix_of_valid,
    lemma_valid_prefix_covers,
    lemma_valid_suffix,
    longest_utf8_prefix,
    utf8_prefix_outcome,
    valid_prefix_len,
};

verus! {

#[verifier::external_type_specification]
#[verifier::external_body]
pub struct ExRegex(regex::Regex);

/// Whether `pattern` compiles as a regular expression.
pub uninterp spec fn regex_compiles(pattern: Seq<char>) -> bool;

/// The byte offsets of the leftmost-first match of `pattern` in `haystack`.
pub uninterp spec fn regex_find(pattern: Seq<char>, haystack: Seq<char>) -> Option<(int, int)>;

/// Relies on regex::Regex::new: whether a pattern compiles depends on the
/// pattern alone.
#[verifier::external_body]
fn compile_regex(pattern: &str) -> (r: Option<regex::Regex>)
    ensures
        r is Some <==> regex_compiles(pattern@),
{
    regex::Regex::new(pattern).ok()
}

/// A compiled pattern together with the text it was compiled from.
#[derive(Debug)]
pub struct CompiledPattern {
    source: String,
    regex: regex::Regex,
}

impl CompiledPattern {
    /// The text the pattern was compiled from.
    pub closed spec fn source_chars(&self) -> Seq<char> {
        self.source@
    }

    /// Compiles `pattern`; `None` when it is not a valid pattern.
    pub fn compile(pattern: &str) -> (r: Option<CompiledPattern>)
        ensures
            r is Some <==> regex_compiles(pattern@),
            r matches Some(p) ==> p.source_chars() == pattern@,
    {
        match compile_regex(pattern) {
            Some(regex) => Some(CompiledPattern { source: pattern.to_owned(), regex }),
            None => None,
        }
    }

    /// The text the pattern was compiled from.
    pub fn source(&self) -> (r: &str)
        ensures
            r@ == self.source_chars(),
    {
        self.source.as_str()
    }
}

/// Relies on regex::Regex::find with Match::start and Match::end: the
/// leftmost-first match of the pattern that `p` was compiled from (its regex
/// is only ever built from its source), with start <= end <= the haystack's
/// byte length, both on character boundaries.
#[verifier::external_body]
fn find_match(p: &CompiledPattern, hay: &str) -> (r: Option<(usize, usize)>)
    ensures
        r matches Some((s, e)) ==> regex_find(p.source_chars(), hay@) == Some((s as int, e as int))
            && s <= e <= hay.spec_bytes().len() && is_char_boundary(hay.spec_bytes(), s as int)
            && is_char_boundary(hay.spec_bytes(), e as int),
        r is None ==> regex_find(p.source_chars(), hay@) is None,
{
    match p.regex.find(hay) {
        Some(m) => Some((m.start(), m.end())),
        None => None,
    }
}

/// Where a match found by `regex_find` ends.
pub open spec fn match_end(found: Option<(int, int)>) -> int {
    match found {
        Some((_, e)) => e,
        None => 0,
    }
}

fn bytes_eq(a: &[u8], b: &[u8], b_from: usize, len: usize) -> (r: bool)
    requires
        len <= a@.len(),
        b_from + len <= b@.len(),
    ensures
        r == (a@.take(len as int) == b@.subrange(b_from as int, b_from + len)),
{
    let blen = b.len();
    let mut i: usize = 0;
    while i < len
        invariant
            i <= len <= a@.len(),
            b_from + len <= b@.len() == blen,
            forall|j: int| 0 <= j < i ==> a@[j] == b@[b_from + j],
        decreases len - i,
    {
        if a[i] != b[b_from + i] {
            assert(a@.take(len as int)[i as int] != b@.subrange(b_from as int, b_from + len)[i as int]);
            return false;
        }
        i = i + 1;
    }
    assert(a@.take(len as int) =~= b@.subrange(b_from as int, b_from + len));
    true
}

pub proof fn lemma_available_prefix(r: &ByteReader)
    requires
        r.wf(),
    ensures
        r.available().len() <= r.remaining().len(),
        r.available() == r.remaining().take(r.available().len() as int),
        r.remaining().len() > 0 ==> r.available().len() > 0,
{
    assert(r.available() =~= r.remaining().take(r.available().len() as int));
}

/// Reads the literal `lit` from the reader.
///
/// The buffered input is taken as far as it is well-formed UTF-8 and matched
/// against what is left of the literal; a literal longer than the buffer is
/// matched part by part over several refills, and a buffer that ends inside
/// a character is extended. On a mismatch the reader has advanced past the
/// part of the literal that did match.
#[verifier::rlimit(60)]
pub fn match_literal(reader: &mut ByteReader, lit: &str) -> (r: Result<(), ScanError>)
    requires
        old(reader).wf(),
    ensures
        final(reader).wf(),
        final(reader).data == old(reader).data,
        final(reader).cap == old(reader).cap,
        r is Ok ==> old(reader).remaining() == lit.spec_bytes() + final(reader).remaining(),
        r is Err ==> exists|k: int|
            0 <= k <= lit.spec_bytes().len() && old(reader).remaining() == lit.spec_bytes().take(k)
                + final(reader).remaining(),
        r matches Err(e) ==> (e matches ScanError::ScanLiteralError(l) && l@ == lit@)
            || e is ScanDecodeError,
        lit.spec_bytes().is_prefix_of(old(reader).remaining()) ==> r is Ok,
        lit@.len() == 0 ==> *final(reader) == *old(reader),
        r matches Err(ScanError::ScanDecodeError(_)) ==> !valid_utf8(old(reader).remaining()),
        old(reader).available() == old(reader).remaining() ==> final(reader).available()
            == final(reader).remaining(),
{
    broadcast use vstd::utf8::encode_utf8_valid_utf8;

    let lb = lit.as_bytes();
    let n = lb.len();
    let ghost pre = lb@.is_prefix_of(old(reader).remaining());
    let ghost vis = old(reader).available() == old(reader).remaining();
    let mut done: usize = 0;
    proof {
        assert(lit.spec_bytes() == encode_utf8(lit@));
        assert(old(reader).remaining() =~= lb@.take(0) + reader.remaining());
        assert(lb@.skip(0) =~= lb@);
        if lit@.len() == 0 {
            assert(lit@ =~= Seq::<char>::empty());
            assert(encode_utf8(lit@) =~= Seq::<u8>::empty());
        }
    }
    loop
        invariant
            reader.wf(),
            reader.data == old(reader).data,
            reader.cap == old(reader).cap,
            lb@ == lit.spec_bytes(),
            valid_utf8(lb@),
            n == lb@.len(),
            done <= n,
            old(reader).remaining() == lb@.take(done as int) + reader.remaining(),
            pre == lb@.is_prefix_of(old(reader).remaining()),
            pre ==> lb@.skip(done as int).is_prefix_of(reader.remaining()) && valid_utf8(
                lb@.skip(done as int),
            ),
            n == 0 ==> *reader == *old(reader),
            lit@.len() == 0 ==> n == 0,
            vis == (old(reader).available() == old(reader).remaining()),
            vis ==> reader.available() == reader.remaining(),
            valid_utf8(old(reader).remaining()) ==> valid_utf8(reader.remaining()),
        decreases reader.remaining().len(), reader.data@.len() - reader.end,
    {
        if done == n {
            assert(lb@.take(n as int) =~= lb@);
            return Ok(());
        }
        let ghost rest_bytes = lb@.skip(done as int);
        proof {
            lemma_available_prefix(reader);
        }
        reader.fill_buf();
        let buf = reader.buffer();
        let ghost avail = buf@;
        let ghost rem = reader.remaining();
        proof {
            lemma_valid_prefix(avail);
            if valid_utf8(rem) && avail.len() > 0 {
                assert(avail =~= rem.take(avail.len() as int));
                lemma_prefix_of_valid(rem, avail.len() as int);
            }
            if pre {
                if avail.len() >= rest_bytes.len() {
                    assert(avail.take(rest_bytes.len() as int) =~= rest_bytes);
                    lemma_valid_prefix_covers(avail, rest_bytes);
                } else {
                    assert(avail =~= rest_bytes.take(avail.len() as int));
                    lemma_prefix_of_valid(rest_bytes, avail.len() as int);
                }
            }
        }
        let valid = match longest_utf8_prefix(buf) {
            Ok(s) => s,
            Err(e) => {
                assert(e@.len() <= 4);
                return Err(ScanError::ScanDecodeError(Utf8Error::new(e)));
            },
        };
        let vb = valid.as_bytes();
        let k = vb.len();
        assert(vb@ == avail.take(valid_prefix_len(avail) as int));
        let rest = n - done;
        proof {
            if pre {
                assert(rest_bytes =~= lb@.subrange(done as int, n as int));
                if k >= rest {
                    assert(vb@.take(rest as int) =~= rest_bytes);
                } else {
                    assert(vb@.take(k as int) =~= lb@.subrange(done as int, done + k));
                }
            }
        }
        if rest <= k {
            if bytes_eq(vb, lb, done, rest) {
                reader.consume(rest);
                proof {
                    assert(lb@ =~= lb@.take(done as int) + lb@.subrange(done as int, n as int));
                    assert(rem =~= rem.take(rest as int) + rem.skip(rest as int));
                    assert(rem.take(rest as int) =~= vb@.take(rest as int));
                }
                return Ok(());
            }
        } else if k > 0 {
            if bytes_eq(vb, lb, done, k) {
                reader.consume(k);
                proof {
                    assert(lb@.take(done + k) =~= lb@.take(done as int) + lb@.subrange(
                        done as int,
                        done + k,
                    ));
                    assert(rem.take(k as int) =~= vb@);
                    assert(rem =~= rem.take(k as int) + rem.skip(k as int));
                    if valid_utf8(rem) {
                        lemma_valid_suffix(vb@, rem.skip(k as int));
                    }
                    if pre {
                        assert(rest_bytes =~= vb@ + lb@.skip(done + k));
                        lemma_valid_suffix(vb@, lb@.skip(done + k));
                    }
                }
                done = done + k;
                continue ;
            }
        } else if buf.len() > 0 && reader.end < reader.data.len() {
            reader.extend_buf();
            continue ;
        }
        proof {
            if pre && k == 0 && rest > 0 {
                assert(rest_bytes.len() > 0);
                assert(rem.len() > 0);
            }
        }
        return Err(ScanError::ScanLiteralError(lit.to_owned()));
    }
}

/// Matches the pattern `p` at the start of the buffered input, refilling the
/// buffer first if it is empty. The pattern sees the buffered bytes as far as
/// they are well-formed UTF-8 and must match at their very start. On success
/// the matched text and its length in bytes are returned; nothing is
/// consumed (see `advance_from_regex`).
pub fn match_regex(reader: &mut ByteReader, p: &CompiledPattern) -> (r: Result<(String, usize), ScanError>)
    requires
        old(reader).wf(),
    ensures
        final(reader).wf(),
        final(reader).data == old(reader).data,
        final(reader).cap == old(reader).cap,
        final(reader).pos == old(reader).pos,
        final(reader).buffered() == old(reader).available(),
        match utf8_prefix_outcome(old(reader).available()) {
            Err(k) => r matches Err(ScanError::ScanDecodeError(e)) && e@ == old(
                reader,
            ).available().take(k as int),
            Ok(n) => {
                let window = old(reader).available().take(n as int);
                let found = regex_find(p.source_chars(), decode_utf8(window));
                if found matches Some((start, end)) && start == 0 {
                    r matches Ok((text, len)) && len == match_end(found) && len <= n && encode_utf8(text@)
                        == window.take(len as int) && valid_utf8(window)
                } else {
                    r matches Err(ScanError::ScanRegexError(src)) && src@ == p.source_chars()
                }
            },
        },
{
    broadcast use vstd::utf8::encode_utf8_decode_utf8;

    reader.fill_buf();
    let buf = reader.buffer();
    let ghost avail = buf@;
    proof {
        lemma_valid_prefix(avail);
    }
    let valid = match longest_utf8_prefix(buf) {
        Ok(s) => s,
        Err(e) => {
            assert(e@.len() <= 4);
            return Err(ScanError::ScanDecodeError(Utf8Error::new(e)));
        },
    };
    let ghost window = avail.take(valid_prefix_len(avail) as int);
    assert(valid@ == decode_utf8(window)) by {
        assert(valid.spec_bytes() == encode_utf8(valid@));
    }
    match find_match(p, valid) {
        Some((s, e)) => {
            if s == 0 {
                let (m, _) = valid.split_at(e);
                let text = m.to_owned();
                assert(encode_utf8(text@) == m.spec_bytes());
                Ok((text, e))
            } else {
                Err(ScanError::ScanRegexError(p.source.clone()))
            }
        },
        None => Err(ScanError::ScanRegexError(p.source.clone())),
    }
}

/// Consumes the `match_len` bytes of a match that `match_regex` returned.
pub fn advance_from_regex(reader: &mut ByteReader, match_len: usize)
    requires
        old(reader).wf(),
        match_len <= old(reader).buffered().len(),
    ensures
        final(reader).wf(),
        final(reader).data == old(reader).data,
        final(reader).cap == old(reader).cap,
        final(reader).remaining() == old(reader).remaining().skip(match_len as int),
        final(reader).buffered() == old(reader).buffered().skip(match_len as int),
{
    reader.consume(match_len);
}

} // verus!
