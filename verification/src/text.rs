use vstd::prelude::*;
use vstd::string::StrSliceExecFns;
use vstd::utf8::decode_utf8;
use vstd::utf8::encode_scalar;
use vstd::utf8::encode_utf8;
use vstd::utf8::valid_utf8;

verus! {

/// White space, as Unicode's White_Space property defines it (the set that
/// `char::is_whitespace` recognizes).
pub open spec fn is_white(c: char) -> bool {
    let u = c as u32;
    u == 0x20 || (0x9 <= u && u <= 0xd) || u == 0x85 || u == 0xa0 || u == 0x1680 || (0x2000 <= u
        && u <= 0x200a) || u == 0x2028 || u == 0x2029 || u == 0x202f || u == 0x205f || u == 0x3000
}

pub fn is_white_char(c: char) -> (r: bool)
    ensures
        r == is_white(c),
{
    let u = c as u32;
    u == 0x20 || (0x9 <= u && u <= 0xd) || u == 0x85 || u == 0xa0 || u == 0x1680 || (0x2000 <= u
        && u <= 0x200a) || u == 0x2028 || u == 0x2029 || u == 0x202f || u == 0x205f || u == 0x3000
}

/// The number of white space characters at the front.
pub open spec fn white_len(s: Seq<char>) -> int
    decreases s.len(),
{
    if s.len() == 0 || !is_white(s[0]) {
        0
    } else {
        1 + white_len(s.drop_first())
    }
}

/// The number of white space characters at the back.
pub open spec fn white_end_len(s: Seq<char>) -> int
    decreases s.len(),
{
    if s.len() == 0 || !is_white(s.last()) {
        0
    } else {
        1 + white_end_len(s.drop_last())
    }
}

/// The input without leading and trailing white space.
pub open spec fn trim_ws(s: Seq<char>) -> Seq<char> {
    let a = white_len(s);
    let b = white_end_len(s);
    if a + b <= s.len() {
        s.subrange(a, s.len() - b)
    } else {
        Seq::empty()
    }
}

/// `white_len` is the position of the first non-white character.
pub proof fn lemma_white_len_is(s: Seq<char>, j: int)
    requires
        0 <= j <= s.len(),
        forall|m: int| 0 <= m < j ==> is_white(#[trigger] s[m]),
        j == s.len() || !is_white(s[j]),
    ensures
        white_len(s) == j,
    decreases j,
{
    if j == 0 {
    } else {
        assert(is_white(s[0]));
        assert(forall|m: int| 0 <= m < j - 1 ==> s.drop_first()[m] == s[m + 1]);
        if j < s.len() {
            assert(s.drop_first()[j - 1] == s[j]);
        }
        lemma_white_len_is(s.drop_first(), j - 1);
    }
}

/// `white_end_len` is the number of white characters after the last
/// non-white character.
pub proof fn lemma_white_end_len_is(s: Seq<char>, j: int)
    requires
        0 <= j <= s.len(),
        forall|m: int| s.len() - j <= m < s.len() ==> is_white(#[trigger] s[m]),
        j == s.len() || !is_white(s[s.len() - j - 1]),
    ensures
        white_end_len(s) == j,
    decreases j,
{
    if j == 0 {
    } else {
        assert(is_white(s.last()));
        assert(forall|m: int| 0 <= m < s.len() - 1 ==> s.drop_last()[m] == s[m]);
        lemma_white_end_len_is(s.drop_last(), j - 1);
    }
}

/// The length of the maximal non-white prefix.
pub open spec fn word_len(s: Seq<char>) -> int
    decreases s.len(),
{
    if s.len() == 0 || is_white(s[0]) {
        0
    } else {
        1 + word_len(s.drop_first())
    }
}

pub proof fn lemma_word_len_bounds(s: Seq<char>)
    ensures
        0 <= word_len(s) <= s.len(),
    decreases s.len(),
{
    if s.len() == 0 || is_white(s[0]) {
    } else {
        lemma_word_len_bounds(s.drop_first());
    }
}

/// `word_len` is the position of the first white character.
pub proof fn lemma_word_len_is(s: Seq<char>, j: int)
    requires
        0 <= j <= s.len(),
        forall|m: int| 0 <= m < j ==> !is_white(#[trigger] s[m]),
        j == s.len() || is_white(s[j]),
    ensures
        word_len(s) == j,
    decreases j,
{
    if j == 0 {
    } else {
        assert(!is_white(s[0]));
        assert(forall|m: int| 0 <= m < j - 1 ==> s.drop_first()[m] == s[m + 1]);
        if j < s.len() {
            assert(s.drop_first()[j - 1] == s[j]);
        }
        lemma_word_len_is(s.drop_first(), j - 1);
    }
}

#[via_fn]
proof fn split_ws_decreases(s: Seq<char>) {
    if s.len() > 0 && !is_white(s[0]) {
        lemma_word_len_bounds(s);
        lemma_word_len_bounds(s.drop_first());
    }
}

/// The maximal non-white runs of the input, in order.
pub open spec fn split_ws(s: Seq<char>) -> Seq<Seq<char>>
    decreases s.len(),
    via split_ws_decreases
{
    if s.len() == 0 {
        Seq::empty()
    } else if is_white(s[0]) {
        split_ws(s.drop_first())
    } else {
        seq![s.take(word_len(s))] + split_ws(s.skip(word_len(s)))
    }
}

/// Splits on white space: the maximal non-white runs of the input, in order.
pub fn split_whitespace(s: &str) -> (r: Vec<String>)
    ensures
        r.deep_view() == split_ws(s@),
{
    let n = s.unicode_len();
    let mut r: Vec<String> = Vec::new();
    let mut i: usize = 0;
    proof {
        assert(s@.skip(0) =~= s@);
        assert(r.deep_view() + split_ws(s@) =~= split_ws(s@));
    }
    while i < n
        invariant
            i <= n,
            n == s@.len(),
            r.deep_view() + split_ws(s@.skip(i as int)) =~= split_ws(s@),
        decreases n - i,
    {
        let c = s.get_char(i);
        if is_white_char(c) {
            proof {
                assert(s@.skip(i as int)[0] == s@[i as int]);
                assert(s@.skip(i as int).drop_first() =~= s@.skip(i as int + 1));
            }
            i = i + 1;
        } else {
            let start = i;
            let mut j = i + 1;
            let mut done = false;
            while !done
                invariant
                    start < j <= n,
                    n == s@.len(),
                    forall|m: int| start <= m < j ==> !is_white(#[trigger] s@[m]),
                    done ==> j == n || is_white(s@[j as int]),
                decreases n - j + (if done { 0int } else { 1int }),
            {
                if j < n {
                    if is_white_char(s.get_char(j)) {
                        done = true;
                    } else {
                        j = j + 1;
                    }
                } else {
                    done = true;
                }
            }
            let word = s.substring_char(start, j).to_owned();
            proof {
                let rest = s@.skip(start as int);
                assert(forall|m: int| 0 <= m < j - start ==> rest[m] == s@[m + start]);
                if j < n {
                    assert(rest[j - start] == s@[j as int]);
                }
                lemma_word_len_is(rest, j - start);
                assert(rest.take(j - start) =~= s@.subrange(start as int, j as int));
                assert(rest.skip(j - start) =~= s@.skip(j as int));
                assert(split_ws(rest) == seq![word@] + split_ws(s@.skip(j as int)));
            }
            let ghost r0 = r.deep_view();
            r.push(word);
            proof {
                assert(r.deep_view() =~= r0.push(word@));
                assert(r.deep_view() + split_ws(s@.skip(j as int)) =~= split_ws(s@));
            }
            i = j;
        }
    }
    proof {
        assert(split_ws(s@.skip(i as int)).len() == 0);
        assert(r.deep_view() + split_ws(s@.skip(i as int)) =~= r.deep_view());
    }
    r
}

/// Whether the line reads exactly `---` once surrounding white space is
/// trimmed away.
pub fn is_delimiter_line(s: &str) -> (r: bool)
    ensures
        r == (trim_ws(s@) == seq!['-', '-', '-']),
{
    let n = s.unicode_len();
    let mut a: usize = 0;
    let mut all_white = true;
    while all_white && a < n
        invariant
            a <= n,
            n == s@.len(),
            forall|m: int| 0 <= m < a ==> is_white(#[trigger] s@[m]),
            !all_white ==> a < n && !is_white(s@[a as int]),
        decreases n - a + (if all_white { 1int } else { 0int }),
    {
        if is_white_char(s.get_char(a)) {
            a = a + 1;
        } else {
            all_white = false;
        }
    }
    if a == n {
        // all white: the trimmed line is empty
        proof {
            lemma_white_len_is(s@, n as int);
            if n == 0 {
                lemma_white_end_len_is(s@, 0);
                assert(trim_ws(s@) =~= Seq::<char>::empty());
            } else {
                lemma_white_end_len_is(s@, n as int);
            }
            assert(trim_ws(s@).len() == 0);
        }
        return false;
    }
    proof {
        lemma_white_len_is(s@, a as int);
    }
    let mut b: usize = 0;
    let mut bdone = false;
    while !bdone
        invariant
            a < n,
            n == s@.len(),
            b <= n - a - 1,
            !is_white(s@[a as int]),
            forall|m: int| n - b <= m < n ==> is_white(#[trigger] s@[m]),
            bdone ==> b == n - a - 1 || !is_white(s@[n - (b as int) - 1]),
        decreases n - a - b + (if bdone { 0int } else { 1int }),
    {
        if b < n - a - 1 {
            if is_white_char(s.get_char(n - 1 - b)) {
                b = b + 1;
            } else {
                bdone = true;
            }
        } else {
            bdone = true;
        }
    }
    proof {
        if b == n - a - 1 {
            assert(s@[n - (b as int) - 1] == s@[a as int]);
        }
        lemma_white_end_len_is(s@, b as int);
        assert(trim_ws(s@) == s@.subrange(a as int, n - b));
    }
    if n - b - a != 3 {
        proof {
            assert(trim_ws(s@).len() == n - b - a);
        }
        return false;
    }
    let c0 = s.get_char(a);
    let c1 = s.get_char(a + 1);
    let c2 = s.get_char(a + 2);
    let r = c0 == '-' && c1 == '-' && c2 == '-';
    proof {
        let t = trim_ws(s@);
        assert(t.len() == 3);
        assert(t[0] == s@[a as int] && t[1] == s@[a as int + 1] && t[2] == s@[a as int + 2]);
        if r {
            assert(t =~= seq!['-', '-', '-']);
        } else {
            assert(t != seq!['-', '-', '-']);
        }
    }
    r
}

/// Relies on `String::from_utf8` of std: it succeeds exactly on valid UTF-8
/// input and decodes it, as vstd's UTF-8 model states.
#[verifier::external_body]
pub fn string_from_utf8(b: Vec<u8>) -> (r: Option<String>)
    ensures
        r is Some <==> valid_utf8(b@),
        r is Some ==> r->0@ == decode_utf8(b@),
{
    match String::from_utf8(b) {
        Ok(s) => Some(s),
        Err(_) => None,
    }
}

/// What `String::from_utf8_lossy` makes of bytes that are not valid UTF-8: a
/// pure function of the bytes alone (invalid sequences become replacement
/// characters), so it only gets a name here.
pub uninterp spec fn lossy_utf8_of(b: Seq<u8>) -> Seq<char>;

/// Relies on `String::from_utf8_lossy` of std: valid UTF-8 input decodes
/// losslessly, per vstd's UTF-8 model; any other input yields the character
/// sequence named `lossy_utf8_of`.
#[verifier::external_body]
pub fn string_from_utf8_lossy(b: &Vec<u8>) -> (r: String)
    ensures
        valid_utf8(b@) ==> r@ == decode_utf8(b@),
        !valid_utf8(b@) ==> r@ == lossy_utf8_of(b@),
{
    String::from_utf8_lossy(b.as_slice()).to_string()
}

/// UTF-8 encoding distributes over concatenation.
pub proof fn lemma_encode_utf8_concat(a: Seq<char>, b: Seq<char>)
    ensures
        encode_utf8(a + b) == encode_utf8(a) + encode_utf8(b),
    decreases a.len(),
{
    if a.len() == 0 {
        assert(a + b =~= b);
        assert(encode_utf8(a) + encode_utf8(b) =~= encode_utf8(b));
    } else {
        assert((a + b)[0] == a[0]);
        assert((a + b).drop_first() =~= a.drop_first() + b);
        lemma_encode_utf8_concat(a.drop_first(), b);
        assert(encode_utf8(a + b) =~= encode_utf8(a) + encode_utf8(b));
    }
}

/// The decimal digit character of `d`.
pub open spec fn dec_digit(d: nat) -> char
    recommends
        d < 10,
{
    if d == 0 {
        '0'
    } else if d == 1 {
        '1'
    } else if d == 2 {
        '2'
    } else if d == 3 {
        '3'
    } else if d == 4 {
        '4'
    } else if d == 5 {
        '5'
    } else if d == 6 {
        '6'
    } else if d == 7 {
        '7'
    } else if d == 8 {
        '8'
    } else {
        '9'
    }
}

/// The decimal rendering of `n`, most significant digit first.
pub open spec fn dec_str(n: nat) -> Seq<char>
    decreases n,
{
    if n < 10 {
        seq![dec_digit(n)]
    } else {
        dec_str(n / 10).push(dec_digit(n % 10))
    }
}

/// One decimal digit encodes as its single ASCII byte.
proof fn lemma_digit_encoding(d: nat)
    requires
        d < 10,
    ensures
        encode_utf8(seq![dec_digit(d)]) == seq![(48 + d) as u8],
{
    assert(dec_digit(d) as u32 == 48 + d);
    let x: u32 = (48 + d) as u32;
    assert(x & 0x7F == x) by (bit_vector)
        requires
            x < 128,
    ;
    assert(seq![dec_digit(d)].drop_first() =~= Seq::<char>::empty());
    assert(encode_utf8(Seq::<char>::empty()) =~= Seq::<u8>::empty());
    assert(encode_scalar(dec_digit(d) as u32) =~= seq![(48 + d) as u8]);
    assert(encode_utf8(seq![dec_digit(d)]) =~= seq![(48 + d) as u8]);
}

/// The UTF-8 bytes of `n`'s decimal rendering.
fn dec_bytes(n: usize) -> (r: Vec<u8>)
    ensures
        r@ == encode_utf8(dec_str(n as nat)),
    decreases n,
{
    if n < 10 {
        let mut r: Vec<u8> = Vec::new();
        r.push(48 + n as u8);
        proof {
            lemma_digit_encoding(n as nat);
            assert(r@ =~= seq![(48 + n as nat) as u8]);
        }
        r
    } else {
        let mut r = dec_bytes(n / 10);
        r.push(48 + (n % 10) as u8);
        proof {
            let hi = dec_str((n / 10) as nat);
            let d = (n % 10) as nat;
            lemma_digit_encoding(d);
            assert(hi.push(dec_digit(d)) =~= hi + seq![dec_digit(d)]);
            lemma_encode_utf8_concat(hi, seq![dec_digit(d)]);
            assert(r@ =~= encode_utf8(hi) + seq![(48 + d) as u8]);
        }
        r
    }
}

/// Renders `n` in decimal.
pub fn usize_to_string(n: usize) -> (r: String)
    ensures
        r@ == dec_str(n as nat),
{
    broadcast use vstd::utf8::encode_utf8_valid_utf8;
    broadcast use vstd::utf8::encode_utf8_decode_utf8;

    let bytes = dec_bytes(n);
    match string_from_utf8(bytes) {
        Some(s) => s,
        None => {
            proof {
                assert(false);
            }
            String::new()
        },
    }
}

} // verus!
