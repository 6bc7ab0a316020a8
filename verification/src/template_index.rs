use vstd::prelude::*;
use vstd::string::StrSliceExecFns;
use vstd::string::StringExecFns;
use vstd::utf8::decode_utf8;
use vstd::utf8::encode_scalar;
use vstd::utf8::encode_utf8;
use vstd::utf8::valid_utf8;
use crate::index::IndexBuildError;
use crate::text::dec_str;
use crate::text::is_white;
use crate::text::lemma_encode_utf8_concat;
use crate::text::lossy_utf8_of;
use crate::text::is_white_char;
use crate::text::lemma_white_end_len_is;
use crate::text::lemma_white_len_is;
use crate::text::string_from_utf8_lossy;
use crate::text::trim_ws;
use crate::text::usize_to_string;

verus! {

/// `n` zero bytes.
pub open spec fn zeros(n: nat) -> Seq<u8> {
    Seq::new(n, |i: int| 0u8)
}

/// One index record: the path's UTF-8 bytes, zero-padded to the block size.
pub open spec fn record_bytes(p: Seq<char>, bs: nat) -> Seq<u8>
    recommends
        encode_utf8(p).len() <= bs,
{
    encode_utf8(p) + zeros((bs - encode_utf8(p).len()) as nat)
}

/// The index file's bytes: one record per path, in id order.
pub open spec fn blocks_bytes(paths: Seq<Seq<char>>, bs: nat) -> Seq<u8>
    decreases paths.len(),
{
    if paths.len() == 0 {
        Seq::empty()
    } else {
        blocks_bytes(paths.drop_last(), bs) + record_bytes(paths.last(), bs)
    }
}

/// The position of the first path whose UTF-8 byte length exceeds the block
/// size, or -1 if every path fits.
pub open spec fn first_too_long(paths: Seq<Seq<char>>, bs: nat) -> int
    decreases paths.len(),
{
    if paths.len() == 0 {
        -1
    } else if encode_utf8(paths[0]).len() > bs {
        0
    } else {
        let r = first_too_long(paths.drop_first(), bs);
        if r < 0 {
            -1
        } else {
            r + 1
        }
    }
}

pub proof fn lemma_first_too_long_props(paths: Seq<Seq<char>>, bs: nat)
    ensures
        first_too_long(paths, bs) == -1 ==> forall|i: int|
            0 <= i < paths.len() ==> encode_utf8(#[trigger] paths[i]).len() <= bs,
        first_too_long(paths, bs) != -1 ==> {
            let r = first_too_long(paths, bs);
            &&& 0 <= r < paths.len()
            &&& encode_utf8(paths[r]).len() > bs
            &&& forall|j: int| 0 <= j < r ==> encode_utf8(#[trigger] paths[j]).len() <= bs
        },
    decreases paths.len(),
{
    if paths.len() == 0 {
    } else if encode_utf8(paths[0]).len() > bs {
    } else {
        lemma_first_too_long_props(paths.drop_first(), bs);
        let r = first_too_long(paths.drop_first(), bs);
        if r == -1 {
            assert(forall|i: int| 1 <= i < paths.len() ==> paths[i] == paths.drop_first()[i - 1]);
        } else {
            assert(paths.drop_first()[r] == paths[r + 1]);
            assert(forall|j: int| 1 <= j < r + 1 ==> paths[j] == paths.drop_first()[j - 1]);
        }
    }
}

/// The message of the length-guard error.
pub open spec fn too_long_msg(p: Seq<char>, bs: nat) -> Seq<char> {
    "Template location path '"@ + p + "' is too long for block-size "@ + dec_str(bs)
}

/// Encodes the paths as a fixed-block index: record `i` holds path `i`'s
/// UTF-8 bytes, zero-padded to `block_size`. Fails on the first path whose
/// byte length exceeds `block_size`, and then hands no bytes out.
pub fn write_template_index(paths: &Vec<String>, block_size: usize) -> (r: Result<
    Vec<u8>,
    IndexBuildError,
>)
    ensures
        ({
            let pd = paths.deep_view();
            let bad = first_too_long(pd, block_size as nat);
            match r {
                Ok(bytes) => bad == -1 && bytes@ == blocks_bytes(pd, block_size as nat),
                Err(e) => bad >= 0 && (e matches IndexBuildError::InvalidIndex(m) && m@
                    == too_long_msg(pd[bad], block_size as nat)),
            }
        }),
{
    let ghost pd = paths.deep_view();
    let ghost bs = block_size as nat;
    let mut out: Vec<u8> = Vec::new();
    let mut i: usize = 0;
    proof {
        assert(pd.take(0) =~= Seq::<Seq<char>>::empty());
    }
    while i < paths.len()
        invariant
            i <= pd.len(),
            pd == paths.deep_view(),
            bs == block_size as nat,
            out@ == blocks_bytes(pd.take(i as int), bs),
            forall|m: int| 0 <= m < i ==> encode_utf8(#[trigger] pd[m]).len() <= bs,
        decreases pd.len() - i,
    {
        let p = &paths[i];
        let bytes = p.as_str().as_bytes();
        proof {
            assert(pd[i as int] == paths@[i as int]@);
            assert(bytes@ == encode_utf8(pd[i as int]));
        }
        if bytes.len() > block_size {
            let mut m = String::new();
            m.append("Template location path '");
            m.append(p.as_str());
            m.append("' is too long for block-size ");
            let num = usize_to_string(block_size);
            m.append(num.as_str());
            proof {
                lemma_first_too_long_props(pd, bs);
                assert(first_too_long(pd, bs) == i as int) by {
                    let f = first_too_long(pd, bs);
                    assert(f != -1);
                    if f < i as int {
                        assert(encode_utf8(pd[f]).len() <= bs);
                    }
                    if f > i as int {
                        assert(encode_utf8(pd[i as int]).len() <= bs);
                    }
                }
            }
            return Err(IndexBuildError::InvalidIndex(m));
        }
        let ghost out0 = out@;
        out.extend_from_slice(bytes);
        let mut z: usize = block_size - bytes.len();
        while z > 0
            invariant
                z <= bs - bytes@.len(),
                bytes@.len() <= bs,
                out@ == out0 + bytes@ + zeros((bs - bytes@.len() - z) as nat),
            decreases z,
        {
            out.push(0u8);
            z = z - 1;
            proof {
                assert(out@ =~= out0 + bytes@ + zeros((bs - bytes@.len() - z) as nat));
            }
        }
        proof {
            assert(out@ == out0 + record_bytes(pd[i as int], bs));
            assert(pd.take(i as int + 1).drop_last() =~= pd.take(i as int));
            assert(pd.take(i as int + 1).last() == pd[i as int]);
        }
        i = i + 1;
    }
    proof {
        lemma_first_too_long_props(pd, bs);
        assert(first_too_long(pd, bs) == -1);
        assert(pd.take(pd.len() as int) =~= pd);
    }
    Ok(out)
}

/// The input without its trailing zero characters.
pub open spec fn strip_nuls(s: Seq<char>) -> Seq<char>
    decreases s.len(),
{
    if s.len() > 0 && s.last() == '\u{0}' {
        strip_nuls(s.drop_last())
    } else {
        s
    }
}

pub proof fn lemma_strip_nuls_is(s: Seq<char>, k: int)
    requires
        0 <= k <= s.len(),
        forall|m: int| s.len() - k <= m < s.len() ==> #[trigger] s[m] == '\u{0}',
        k == s.len() || s[s.len() - k - 1] != '\u{0}',
    ensures
        strip_nuls(s) == s.take(s.len() - k),
    decreases k,
{
    if k == 0 {
        assert(s.take(s.len() as int) =~= s);
    } else {
        assert(s.last() == '\u{0}');
        assert(forall|m: int| 0 <= m < s.len() - 1 ==> s.drop_last()[m] == s[m]);
        lemma_strip_nuls_is(s.drop_last(), k - 1);
        assert(s.drop_last().take(s.len() - k) =~= s.take(s.len() - k));
    }
}

/// What one block lookup recovers: nothing when the block lies past the end
/// of the data or holds no text once zero padding and surrounding white space
/// are trimmed; otherwise the recovered path. A block that is not valid UTF-8
/// is decoded lossily and still recovered.
pub open spec fn resolve_one(data: Seq<u8>, bs: nat, id: nat) -> Option<Seq<char>> {
    if bs == 0 || id * bs >= data.len() {
        None
    } else {
        let off = (id * bs) as int;
        let end = if data.len() - off < bs {
            data.len() as int
        } else {
            off + bs
        };
        let raw = data.subrange(off as int, end);
        let text = if valid_utf8(raw) {
            decode_utf8(raw)
        } else {
            lossy_utf8_of(raw)
        };
        let t = trim_ws(strip_nuls(text));
        if t.len() == 0 {
            None
        } else {
            Some(t)
        }
    }
}

/// Copies `data[off .. end)` out.
fn slice_range(data: &Vec<u8>, off: usize, end: usize) -> (r: Vec<u8>)
    requires
        off <= end <= data@.len(),
    ensures
        r@ == data@.subrange(off as int, end as int),
{
    let mut r: Vec<u8> = Vec::new();
    let mut i: usize = off;
    while i < end
        invariant
            off <= i <= end <= data@.len(),
            r@ == data@.subrange(off as int, i as int),
        decreases end - i,
    {
        r.push(data[i]);
        i = i + 1;
        proof {
            assert(r@ =~= data@.subrange(off as int, i as int));
        }
    }
    r
}

/// Trims trailing zero characters, then surrounding white space.
fn trim_block_text(s: &String) -> (r: String)
    ensures
        r@ == trim_ws(strip_nuls(s@)),
{
    let n = s.as_str().unicode_len();
    // trailing zero characters
    let mut k: usize = 0;
    let mut kdone = false;
    while !kdone
        invariant
            k <= n,
            n == s@.len(),
            forall|m: int| n - k <= m < n ==> #[trigger] s@[m] == '\u{0}',
            kdone ==> k == n || s@[n - (k as int) - 1] != '\u{0}',
        decreases n - k + (if kdone { 0int } else { 1int }),
    {
        if k < n {
            if s.as_str().get_char(n - 1 - k) == '\u{0}' {
                k = k + 1;
            } else {
                kdone = true;
            }
        } else {
            kdone = true;
        }
    }
    proof {
        lemma_strip_nuls_is(s@, k as int);
    }
    let nn = n - k;
    let ghost sn = strip_nuls(s@);
    proof {
        assert(sn == s@.take(nn as int));
        assert(sn.len() == nn);
        assert(forall|m: int| 0 <= m < nn ==> sn[m] == s@[m]);
    }
    // leading white space
    let mut a: usize = 0;
    let mut adone = false;
    while !adone
        invariant
            a <= nn,
            nn <= n == s@.len(),
            sn == strip_nuls(s@),
            sn.len() == nn,
            forall|m: int| 0 <= m < nn ==> #[trigger] sn[m] == s@[m],
            forall|m: int| 0 <= m < a ==> is_white(#[trigger] sn[m]),
            adone ==> a == nn || !is_white(sn[a as int]),
        decreases nn - a + (if adone { 0int } else { 1int }),
    {
        if a < nn {
            if is_white_char(s.as_str().get_char(a)) {
                a = a + 1;
            } else {
                adone = true;
            }
        } else {
            adone = true;
        }
    }
    if a == nn {
        proof {
            lemma_white_len_is(sn, nn as int);
            if nn == 0 {
                lemma_white_end_len_is(sn, 0);
            } else {
                lemma_white_end_len_is(sn, nn as int);
            }
            assert(trim_ws(sn).len() == 0);
            assert(trim_ws(sn) =~= Seq::<char>::empty());
        }
        return String::new();
    }
    proof {
        lemma_white_len_is(sn, a as int);
    }
    // trailing white space
    let mut b: usize = 0;
    let mut bdone = false;
    while !bdone
        invariant
            a < nn,
            nn <= n == s@.len(),
            sn == strip_nuls(s@),
            sn.len() == nn,
            forall|m: int| 0 <= m < nn ==> #[trigger] sn[m] == s@[m],
            !is_white(sn[a as int]),
            b <= nn - a - 1,
            forall|m: int| nn - b <= m < nn ==> is_white(#[trigger] sn[m]),
            bdone ==> b == nn - a - 1 || !is_white(sn[nn - (b as int) - 1]),
        decreases nn - a - b + (if bdone { 0int } else { 1int }),
    {
        if b < nn - a - 1 {
            if is_white_char(s.as_str().get_char(nn - 1 - b)) {
                b = b + 1;
            } else {
                bdone = true;
            }
        } else {
            bdone = true;
        }
    }
    proof {
        if b == nn - a - 1 {
            assert(sn[nn - (b as int) - 1] == sn[a as int]);
        }
        lemma_white_end_len_is(sn, b as int);
    }
    let r = s.as_str().substring_char(a, nn - b).to_owned();
    proof {
        assert(r@ =~= trim_ws(sn));
    }
    r
}

/// Reads the requested ids out of an index file's bytes: for each id, the
/// path its block holds, or nothing when the block lies past the end of the
/// data or holds no text.
pub fn read_template_index(data: &Vec<u8>, block_size: usize, ids: &Vec<usize>) -> (r: Vec<
    (usize, Option<String>),
>)
    ensures
        r@.len() == ids@.len(),
        forall|i: int|
            0 <= i < r@.len() ==> (#[trigger] r@[i]).0 == ids@[i] && (match r@[i].1 {
                Some(p) => resolve_one(data@, block_size as nat, ids@[i] as nat) == Some(p@),
                None => resolve_one(data@, block_size as nat, ids@[i] as nat) is None,
            }),
{
    let mut r: Vec<(usize, Option<String>)> = Vec::new();
    let mut i: usize = 0;
    while i < ids.len()
        invariant
            i <= ids@.len(),
            r@.len() == i,
            forall|m: int|
                0 <= m < i ==> (#[trigger] r@[m]).0 == ids@[m] && (match r@[m].1 {
                    Some(p) => resolve_one(data@, block_size as nat, ids@[m] as nat) == Some(p@),
                    None => resolve_one(data@, block_size as nat, ids@[m] as nat) is None,
                }),
        decreases ids@.len() - i,
    {
        let id = ids[i];
        let entry = resolve_block(data, block_size, id);
        r.push((id, entry));
        i = i + 1;
    }
    r
}

/// Recovers the path stored in block `id`, if any.
fn resolve_block(data: &Vec<u8>, block_size: usize, id: usize) -> (r: Option<String>)
    ensures
        match r {
            Some(p) => resolve_one(data@, block_size as nat, id as nat) == Some(p@),
            None => resolve_one(data@, block_size as nat, id as nat) is None,
        },
{
    if block_size == 0 {
        return None;
    }
    if id > data.len() / block_size {
        proof {
            assert((id as nat) * (block_size as nat) >= data@.len()) by (nonlinear_arith)
                requires
                    id as int > data@.len() as int / block_size as int,
                    block_size >= 1,
            ;
        }
        return None;
    }
    proof {
        assert((id as nat) * (block_size as nat) <= data@.len()) by (nonlinear_arith)
            requires
                id as int <= data@.len() as int / block_size as int,
                block_size >= 1,
        ;
    }
    let off = id * block_size;
    if off >= data.len() {
        return None;
    }
    let end = if data.len() - off < block_size {
        data.len()
    } else {
        off + block_size
    };
    let raw = slice_range(data, off, end);
    let s = string_from_utf8_lossy(&raw);
    let t = trim_block_text(&s);
    if t.as_str().unicode_len() == 0 {
        proof {
            assert(t@.len() == 0);
        }
        None
    } else {
        Some(t)
    }
}

/// `k` zero characters.
pub open spec fn nul_chars(k: nat) -> Seq<char> {
    Seq::new(k, |i: int| '\u{0}')
}

/// Zero characters encode as zero bytes.
proof fn lemma_encode_nuls(k: nat)
    ensures
        encode_utf8(nul_chars(k)) == zeros(k),
    decreases k,
{
    if k == 0 {
        assert(nul_chars(0).len() == 0);
        assert(encode_utf8(nul_chars(0)) =~= zeros(0));
    } else {
        assert(nul_chars(k)[0] == '\u{0}');
        assert(('\u{0}' as u32) == 0);
        assert(0u32 & 0x7F == 0) by (bit_vector);
        assert(encode_scalar(0) =~= seq![0u8]);
        assert(nul_chars(k).drop_first() =~= nul_chars((k - 1) as nat));
        lemma_encode_nuls((k - 1) as nat);
        assert(encode_utf8(nul_chars(k)) =~= zeros(k));
    }
}

/// The index bytes of paths that all fit hold one block per path.
proof fn lemma_blocks_len(paths: Seq<Seq<char>>, bs: nat)
    requires
        forall|i: int| 0 <= i < paths.len() ==> encode_utf8(#[trigger] paths[i]).len() <= bs,
    ensures
        blocks_bytes(paths, bs).len() == paths.len() * bs,
    decreases paths.len(),
{
    if paths.len() == 0 {
        assert(0 * bs == 0) by (nonlinear_arith);
    } else {
        assert(forall|i: int|
            0 <= i < paths.len() - 1 ==> paths.drop_last()[i] == #[trigger] paths[i]);
        lemma_blocks_len(paths.drop_last(), bs);
        assert(paths.last() == paths[paths.len() - 1]);
        assert(record_bytes(paths.last(), bs).len() == bs);
        assert((paths.len() - 1) * bs + bs == paths.len() * bs) by (nonlinear_arith);
    }
}

/// Block `id` of the index bytes is path `id`'s record.
proof fn lemma_block_at(paths: Seq<Seq<char>>, bs: nat, id: int)
    requires
        forall|i: int| 0 <= i < paths.len() ==> encode_utf8(#[trigger] paths[i]).len() <= bs,
        0 <= id < paths.len(),
    ensures
        blocks_bytes(paths, bs).subrange(id * bs, id * bs + bs as int) == record_bytes(
            paths[id],
            bs,
        ),
    decreases paths.len(),
{
    let whole = blocks_bytes(paths, bs);
    let front = blocks_bytes(paths.drop_last(), bs);
    let rec = record_bytes(paths.last(), bs);
    assert(forall|i: int|
        0 <= i < paths.len() - 1 ==> paths.drop_last()[i] == #[trigger] paths[i]);
    lemma_blocks_len(paths.drop_last(), bs);
    assert(record_bytes(paths.last(), bs).len() == bs);
    if id == paths.len() - 1 {
        assert(id * bs == front.len()) by (nonlinear_arith)
            requires
                front.len() == (paths.len() - 1) * bs,
                id == paths.len() - 1,
        ;
        assert(whole.subrange(id * bs, id * bs + bs as int) =~= rec);
    } else {
        lemma_block_at(paths.drop_last(), bs, id);
        assert(id * bs + bs <= front.len()) by (nonlinear_arith)
            requires
                front.len() == (paths.len() - 1) * bs,
                0 <= id < paths.len() - 1,
                bs >= 0,
        ;
        assert(whole.subrange(id * bs, id * bs + bs as int) =~= front.subrange(
            id * bs,
            id * bs + bs as int,
        ));
    }
}

/// Trailing zero padding never changes what stripping recovers.
proof fn lemma_strip_nuls_pad(p: Seq<char>, k: nat)
    ensures
        strip_nuls(p + nul_chars(k)) == strip_nuls(p),
    decreases k,
{
    if k == 0 {
        assert(p + nul_chars(0) =~= p);
    } else {
        assert((p + nul_chars(k)).last() == '\u{0}');
        assert((p + nul_chars(k)).drop_last() =~= p + nul_chars((k - 1) as nat));
        lemma_strip_nuls_pad(p, (k - 1) as nat);
    }
}

/// Round trip: once paths that each fit in a block are written, reading block
/// `id` recovers path `id` with its trailing zero characters and surrounding
/// white space trimmed away (nothing, when that leaves no text) — so a path
/// that is non-empty, does not end in a zero character, and neither starts
/// nor ends with white space is recovered exactly — and a block past the
/// written range recovers nothing.
pub proof fn lemma_index_round_trip(paths: Seq<Seq<char>>, bs: nat, id: int)
    requires
        bs >= 1,
        forall|i: int| 0 <= i < paths.len() ==> encode_utf8(#[trigger] paths[i]).len() <= bs,
        0 <= id,
    ensures
        id < paths.len() ==> resolve_one(blocks_bytes(paths, bs), bs, id as nat) == ({
            let t = trim_ws(strip_nuls(paths[id]));
            if t.len() == 0 {
                None::<Seq<char>>
            } else {
                Some(t)
            }
        }),
        id < paths.len() && ({
            let p = paths[id];
            &&& p.len() > 0
            &&& p.last() != '\u{0}'
            &&& !is_white(p[0])
            &&& !is_white(p.last())
        }) ==> resolve_one(blocks_bytes(paths, bs), bs, id as nat) == Some(paths[id]),
        id >= paths.len() ==> resolve_one(blocks_bytes(paths, bs), bs, id as nat) is None,
{
    broadcast use vstd::utf8::encode_utf8_valid_utf8;
    broadcast use vstd::utf8::encode_utf8_decode_utf8;

    let data = blocks_bytes(paths, bs);
    lemma_blocks_len(paths, bs);
    if id >= paths.len() {
        assert(id * bs >= paths.len() * bs) by (nonlinear_arith)
            requires
                id >= paths.len(),
                bs >= 0,
        ;
    } else {
        let p = paths[id];
        assert(id * bs + bs <= paths.len() * bs) by (nonlinear_arith)
            requires
                0 <= id < paths.len(),
                bs >= 0,
        ;
        assert(id * bs < data.len());
        let off = id * bs;
        let end = if data.len() - off < bs {
            data.len() as int
        } else {
            off + bs as int
        };
        assert(end == off + bs);
        lemma_block_at(paths, bs, id);
        let raw = data.subrange(off, end);
        assert(raw == record_bytes(p, bs));
        let k = (bs - encode_utf8(p).len()) as nat;
        lemma_encode_nuls(k);
        lemma_encode_utf8_concat(p, nul_chars(k));
        assert(raw =~= encode_utf8(p + nul_chars(k)));
        assert(valid_utf8(raw));
        let dc = decode_utf8(raw);
        assert(dc == p + nul_chars(k));
        lemma_strip_nuls_pad(p, k);
        assert(strip_nuls(dc) == strip_nuls(p));
        if p.len() > 0 && p.last() != '\u{0}' && !is_white(p[0]) && !is_white(p.last()) {
            assert(strip_nuls(p) == p);
            lemma_white_len_is(p, 0);
            lemma_white_end_len_is(p, 0);
            assert(trim_ws(p) =~= p);
        }
    }
}

} // verus!
