//! Layout of the per-file lines printed while cutting, and the FFmpeg
//! filter graph that joins the kept parts of an episode with cross-fades.

use vstd::prelude::*;
use vstd::string::{StrSliceExecFns, StringExecFns, StringSliceAdditionalSpecFns};
use vstd::utf8::{encode_utf8, is_char_boundary};
use crate::tags::{decimal, push_decimal};

verus! {

/// `n` spaces.
pub open spec fn spaces(n: nat) -> Seq<char> {
    Seq::new(n, |i: int| ' ')
}

/// A UTF-8 encoding has at least one byte per character.
proof fn lemma_encode_utf8_len(chars: Seq<char>)
    ensures
        chars.len() <= encode_utf8(chars).len(),
    decreases chars.len(),
{
    if chars.len() > 0 {
        lemma_encode_utf8_len(chars.drop_first());
    }
}

/// Fits `s` into a column of `max_len`: a string of at most `max_len` bytes
/// is padded with spaces to `max_len` characters; a longer one keeps only its
/// last `max_len` bytes, which must start on a character boundary.
pub fn truncate_last(s: &str, max_len: usize) -> (r: String)
    requires
        s.spec_bytes().len() > max_len ==> is_char_boundary(
            s.spec_bytes(),
            s.spec_bytes().len() - max_len,
        ),
    ensures
        s.spec_bytes().len() <= max_len ==> r@ == s@ + spaces((max_len - s@.len()) as nat),
        s.spec_bytes().len() > max_len ==> encode_utf8(r@) == s.spec_bytes().subrange(
            s.spec_bytes().len() - max_len,
            s.spec_bytes().len() as int,
        ),
{
    let n = s.as_bytes().len();
    if n <= max_len {
        proof {
            lemma_encode_utf8_len(s@);
        }
        let mut r = s.to_owned();
        let mut k = s.unicode_len();
        proof {
            reveal_strlit(" ");
        }
        while k < max_len
            invariant
                s@.len() <= k <= max_len || (k == s@.len() && k >= max_len),
                s@.len() <= max_len,
                r@ == s@ + spaces((k - s@.len()) as nat),
                " "@ == seq![' '],
            decreases max_len - k,
        {
            r.append(" ");
            k = k + 1;
            proof {
                assert(r@ =~= s@ + spaces((k - s@.len()) as nat));
            }
        }
        proof {
            assert(r@ =~= s@ + spaces((max_len - s@.len()) as nat));
        }
        r
    } else {
        let (_, tail) = s.split_at(n - max_len);
        tail.to_owned()
    }
}

/// `[0:a]atrim=start=S:end=E,asetpts=PTS-STARTPTS[aI];`: part `i` of the
/// input, from `S` to `E` seconds, as stream `aI`.
pub open spec fn atrim_text(b: (Seq<char>, Seq<char>), i: nat) -> Seq<char> {
    "[0:a]atrim=start="@ + b.0 + ":end="@ + b.1 + ",asetpts=PTS-STARTPTS[a"@ + decimal(i) + "];"@
}

/// The trims of the first `n` parts.
pub open spec fn atrim_chain(bounds: Seq<(Seq<char>, Seq<char>)>, n: int) -> Seq<char>
    decreases n,
{
    if n <= 0 {
        Seq::empty()
    } else {
        atrim_chain(bounds, n - 1) + atrim_text(bounds[n - 1], (n - 1) as nat)
    }
}

/// `cfI`: the stream of the first `I + 2` parts joined.
pub open spec fn cf_label(i: nat) -> Seq<char> {
    "cf"@ + decimal(i)
}

/// `[aI]acrossfade=d=F:c1=qsin:c2=qsin[`: stream `aI` faded in over `F`
/// seconds with equal-power (quarter-sine) curves.
pub open spec fn fade_core(i: nat, fade: Seq<char>) -> Seq<char> {
    "[a"@ + decimal(i) + "]acrossfade=d="@ + fade + ":c1=qsin:c2=qsin["@
}

/// `IN[aI]acrossfade=...[OUT]`.
pub open spec fn fade_text(input: Seq<char>, i: nat, fade: Seq<char>, out: Seq<char>) -> Seq<
    char,
> {
    input + fade_core(i, fade) + out + "]"@
}

/// The fade that adds part `i` (2 <= i < n) to the parts before it: the
/// last one ends in `outa`, the others in `cf{i-1}` followed by `;`.
pub open spec fn fade_step(n: int, i: int, fade: Seq<char>) -> Seq<char> {
    let input = "["@ + cf_label((i - 2) as nat) + "]"@;
    if i == n - 1 {
        fade_text(input, i as nat, fade, "outa"@)
    } else {
        fade_text(input, i as nat, fade, cf_label((i - 1) as nat)) + ";"@
    }
}

/// The fades that add parts `2 .. k`.
pub open spec fn fade_steps(n: int, k: int, fade: Seq<char>) -> Seq<char>
    decreases k,
{
    if k <= 2 {
        Seq::empty()
    } else {
        fade_steps(n, k - 1, fade) + fade_step(n, k - 1, fade)
    }
}

/// The filter graph that trims each kept part and joins them in order with
/// cross-fades of `fade` seconds, ending in the stream `outa`.
pub open spec fn crossfade_graph(bounds: Seq<(Seq<char>, Seq<char>)>, fade: Seq<char>) -> Seq<
    char,
> {
    let n = bounds.len() as int;
    atrim_chain(bounds, n) + if n == 2 {
        fade_text("[a0]"@, 1, fade, "outa"@)
    } else {
        fade_text("[a0]"@, 1, fade, "cf0"@) + ";"@ + fade_steps(n, n, fade)
    }
}

/// The start and end texts of the parts.
pub open spec fn bounds_view(bounds: Seq<(String, String)>) -> Seq<(Seq<char>, Seq<char>)> {
    bounds.map_values(|b: (String, String)| (b.0@, b.1@))
}

fn push_cf_label(out: &mut String, i: usize)
    ensures
        final(out)@ == old(out)@ + cf_label(i as nat),
{
    let ghost before = out@;
    out.append("cf");
    push_decimal(out, i as u64);
    proof {
        assert(out@ =~= before + cf_label(i as nat));
    }
}

fn push_fade_core(out: &mut String, i: usize, fade: &str)
    ensures
        final(out)@ == old(out)@ + fade_core(i as nat, fade@),
{
    let ghost before = out@;
    out.append("[a");
    push_decimal(out, i as u64);
    out.append("]acrossfade=d=");
    out.append(fade);
    out.append(":c1=qsin:c2=qsin[");
    proof {
        assert(out@ =~= before + fade_core(i as nat, fade@));
    }
}

fn push_atrim(out: &mut String, start: &String, end: &String, i: usize)
    ensures
        final(out)@ == old(out)@ + atrim_text((start@, end@), i as nat),
{
    let ghost before = out@;
    out.append("[0:a]atrim=start=");
    out.append(start.as_str());
    out.append(":end=");
    out.append(end.as_str());
    out.append(",asetpts=PTS-STARTPTS[a");
    push_decimal(out, i as u64);
    out.append("];");
    proof {
        assert(out@ =~= before + atrim_text((start@, end@), i as nat));
    }
}

/// The FFmpeg filter graph that joins the kept parts of an episode: each
/// part `i` is trimmed from its start to its end text (seconds) into stream
/// `ai`, and the streams are joined in order, each fading into the next over
/// `fade` seconds with equal-power curves; the result is stream `outa`.
pub fn crossfade_filter_graph(bounds: &Vec<(String, String)>, fade: &str) -> (r: String)
    requires
        bounds@.len() >= 2,
    ensures
        r@ == crossfade_graph(bounds_view(bounds@), fade@),
{
    let ghost bv = bounds_view(bounds@);
    let n = bounds.len();
    let mut out = String::new();
    let mut i: usize = 0;
    while i < n
        invariant
            i <= n,
            n == bounds@.len(),
            bv == bounds_view(bounds@),
            out@ == atrim_chain(bv, i as int),
        decreases n - i,
    {
        push_atrim(&mut out, &bounds[i].0, &bounds[i].1, i);
        i = i + 1;
    }
    let ghost trims = out@;
    out.append("[a0]");
    push_fade_core(&mut out, 1, fade);
    if n == 2 {
        out.append("outa");
        out.append("]");
        proof {
            assert(out@ =~= trims + fade_text("[a0]"@, 1, fade@, "outa"@));
        }
        return out;
    }
    out.append("cf0");
    out.append("]");
    out.append(";");
    let ghost head = out@;
    proof {
        assert(head =~= trims + fade_text("[a0]"@, 1, fade@, "cf0"@) + ";"@);
        assert(fade_steps(n as int, 2, fade@) =~= Seq::<char>::empty());
    }
    let mut k: usize = 2;
    while k < n
        invariant
            2 <= k <= n,
            n == bounds@.len(),
            out@ == head + fade_steps(n as int, k as int, fade@),
        decreases n - k,
    {
        let ghost before = out@;
        out.append("[");
        push_cf_label(&mut out, k - 2);
        out.append("]");
        push_fade_core(&mut out, k, fade);
        if k == n - 1 {
            out.append("outa");
            out.append("]");
        } else {
            push_cf_label(&mut out, k - 1);
            out.append("]");
            out.append(";");
        }
        proof {
            assert(out@ =~= before + fade_step(n as int, k as int, fade@));
        }
        k = k + 1;
    }
    proof {
        assert(out@ =~= trims + (fade_text("[a0]"@, 1, fade@, "cf0"@) + ";"@ + fade_steps(
            n as int,
            n as int,
            fade@,
        )));
    }
    out
}

} // verus!
