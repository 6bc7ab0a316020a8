use vstd::prelude::*;
use vstd::string::StringExecFns;
use unicode_segmentation::UnicodeSegmentation;

verus! {

/// The sequence of grapheme clusters of a character sequence, under Unicode
/// extended grapheme cluster segmentation. Segmentation is a pure function of
/// the characters, so it only gets a name here; its value is never spelled out.
pub uninterp spec fn graphemes_of(s: Seq<char>) -> Seq<Seq<char>>;

/// The concatenation of a sequence of character sequences.
pub open spec fn concat_chars(gs: Seq<Seq<char>>) -> Seq<char>
    decreases gs.len(),
{
    if gs.len() == 0 {
        Seq::empty()
    } else {
        gs[0] + concat_chars(gs.drop_first())
    }
}

/// The concatenation of a sequence of character sequences in reverse order.
pub open spec fn rev_concat_chars(gs: Seq<Seq<char>>) -> Seq<char>
    decreases gs.len(),
{
    if gs.len() == 0 {
        Seq::empty()
    } else {
        rev_concat_chars(gs.drop_first()) + gs[0]
    }
}

/// Relies on unicode_segmentation's `UnicodeSegmentation::graphemes` with
/// extended clusters: it yields the consecutive non-empty substrings of the
/// input that make up its grapheme clusters, so their concatenation is the
/// input itself.
#[verifier::external_body]
pub fn graphemes(s: &str) -> (r: Vec<String>)
    ensures
        r.deep_view() == graphemes_of(s@),
        concat_chars(r.deep_view()) == s@,
        forall|i: int| 0 <= i < r.deep_view().len() ==> r.deep_view()[i].len() > 0,
{
    UnicodeSegmentation::graphemes(s, true).map(|g| g.to_string()).collect()
}

/// The input with the order of its grapheme clusters reversed.
pub fn unicode_reverse(text: &str) -> (r: String)
    ensures
        r@ == rev_concat_chars(graphemes_of(text@)),
{
    let g = graphemes(text);
    let ghost gv = g.deep_view();
    let mut r = String::new();
    let mut i: usize = g.len();
    while i > 0
        invariant
            i <= g.len(),
            gv == g.deep_view(),
            r@ == rev_concat_chars(gv.skip(i as int)),
        decreases i,
    {
        i = i - 1;
        r.append(g[i].as_str());
        proof {
            assert(gv.skip(i as int).drop_first() =~= gv.skip(i as int + 1));
            assert(gv.skip(i as int)[0] == g@[i as int]@);
        }
    }
    proof {
        assert(gv.skip(0) =~= gv);
    }
    r
}

} // verus!
