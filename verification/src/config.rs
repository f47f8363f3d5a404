//! Sampler configuration: the advanced slash-delimited chain text.

use vstd::prelude::*;
use vstd::string::*;

verus! {

/// The whitespace the sampler options are trimmed of.
pub open spec fn is_ws(c: char) -> bool {
    c == ' ' || c == '\t' || c == '\n' || c == '\r'
}

/// Leading whitespace length.
pub open spec fn lead_ws(s: Seq<char>) -> int
    decreases s.len(),
{
    if s.len() == 0 {
        0
    } else if is_ws(s[0]) {
        1 + lead_ws(s.drop_first())
    } else {
        0
    }
}

/// `s` with surrounding whitespace removed: drop the leading run, then the
/// trailing run of what remains.
pub open spec fn trimmed(s: Seq<char>) -> Seq<char> {
    let lead = lead_ws(s);
    let rest = s.skip(lead);
    rest.take(rest.len() - lead_ws(rest.reverse()))
}

proof fn lemma_lead_ws_bound(s: Seq<char>)
    ensures
        0 <= lead_ws(s) <= s.len(),
        forall|i: int| 0 <= i < lead_ws(s) ==> is_ws(#[trigger] s[i]),
        lead_ws(s) < s.len() ==> !is_ws(s[lead_ws(s)]),
    decreases s.len(),
{
    if s.len() > 0 && is_ws(s[0]) {
        lemma_lead_ws_bound(s.drop_first());
        assert forall|i: int| 0 <= i < lead_ws(s) implies is_ws(#[trigger] s[i]) by {
            if i > 0 {
                assert(is_ws(s.drop_first()[i - 1]));
            }
        }
        if lead_ws(s) < s.len() {
            assert(s[lead_ws(s)] == s.drop_first()[lead_ws(s.drop_first())]);
        }
    }
}

/// Trim ASCII whitespace from both ends.
fn trim_exec(s: &str) -> (r: String)
    ensures
        r@ == trimmed(s@),
{
    let n = s.unicode_len();
    let mut lo: usize = 0;
    proof {
        lemma_lead_ws_bound(s@);
    }
    while lo < n && (s.get_char(lo) == ' ' || s.get_char(lo) == '\t' || s.get_char(lo) == '\n'
        || s.get_char(lo) == '\r')
        invariant
            lo <= n,
            n == s@.len(),
            forall|i: int| 0 <= i < lo ==> is_ws(#[trigger] s@[i]),
            lo <= lead_ws(s@),
        decreases n - lo,
    {
        proof {
            lemma_lead_ws_prefix(s@, lo as int);
        }
        lo = lo + 1;
    }
    proof {
        assert(lo as int == lead_ws(s@)) by {
            lemma_lead_ws_bound(s@);
        }
    }
    let ghost rest = s@.skip(lo as int);
    let mut hi: usize = n;
    proof {
        lemma_lead_ws_bound(rest.reverse());
        assert(rest.reverse().len() == rest.len());
    }
    while hi > lo && (s.get_char(hi - 1) == ' ' || s.get_char(hi - 1) == '\t' || s.get_char(hi - 1)
        == '\n' || s.get_char(hi - 1) == '\r')
        invariant
            lo <= hi <= n,
            n == s@.len(),
            lo as int == lead_ws(s@),
            rest == s@.skip(lo as int),
            forall|i: int| hi <= i < n ==> is_ws(#[trigger] s@[i]),
            (n - hi) as int <= lead_ws(rest.reverse()),
        decreases hi,
    {
        proof {
            assert(rest.reverse()[(n - hi) as int] == s@[hi - 1]) by {
                assert(rest.reverse()[(n - hi) as int] == rest[rest.len() - 1 - (n - hi)]);
                assert(rest[rest.len() - 1 - (n - hi)] == s@[hi - 1]);
            }
            lemma_lead_ws_prefix(rest.reverse(), (n - hi) as int);
        }
        hi = hi - 1;
    }
    proof {
        assert((n - hi) as int == lead_ws(rest.reverse())) by {
            lemma_lead_ws_bound(rest.reverse());
            if ((n - hi) as int) < lead_ws(rest.reverse()) {
                assert(is_ws(rest.reverse()[(n - hi) as int]));
                assert(rest.reverse()[(n - hi) as int] == rest[rest.len() - 1 - (n - hi)]);
                assert(rest[rest.len() - 1 - (n - hi)] == s@[hi - 1]);
            }
        }
    }
    let piece = s.substring_char(lo, hi);
    proof {
        assert(piece@ =~= trimmed(s@));
    }
    piece.to_owned()
}

/// `lead_ws` is at least `k + 1` when the first `k + 1` characters are
/// whitespace.
proof fn lemma_lead_ws_prefix(s: Seq<char>, k: int)
    requires
        0 <= k < s.len(),
        forall|i: int| 0 <= i <= k ==> is_ws(#[trigger] s[i]),
    ensures
        lead_ws(s) >= k + 1,
    decreases k,
{
    assert(is_ws(s[0]));
    lemma_lead_ws_bound(s.drop_first());
    if k > 0 {
        assert forall|i: int| 0 <= i <= k - 1 implies is_ws(#[trigger] s.drop_first()[i]) by {
            assert(s.drop_first()[i] == s[i + 1]);
        }
        lemma_lead_ws_prefix(s.drop_first(), k - 1);
    }
}

/// Advanced sampler configuration: a chain of sampler stage descriptions.
#[derive(Debug)]
pub struct AdvancedSamplerConfig {
    /// Samplers to apply.
    pub samplers: Vec<String>,
}

/// The slash-delimited option text built from the stages: each stage
/// trimmed, empty stages dropped, each remaining stage preceded by a slash.
pub open spec fn sampler_options_of(samplers: Seq<String>) -> Seq<char>
    decreases samplers.len(),
{
    if samplers.len() == 0 {
        Seq::empty()
    } else {
        (if trimmed(samplers[0]@).len() == 0 {
            Seq::<char>::empty()
        } else {
            "/"@ + trimmed(samplers[0]@)
        }) + sampler_options_of(samplers.drop_first())
    }
}

proof fn lemma_sampler_options_snoc(samplers: Seq<String>, i: int)
    requires
        0 <= i < samplers.len(),
    ensures
        sampler_options_of(samplers.take(i + 1)) == sampler_options_of(samplers.take(i)) + (
        if trimmed(samplers[i]@).len() == 0 {
            Seq::<char>::empty()
        } else {
            "/"@ + trimmed(samplers[i]@)
        }),
    decreases i,
{
    if i == 0 {
        assert(samplers.take(0) =~= Seq::<String>::empty());
        assert(samplers.take(1)[0] == samplers[0]);
        assert(samplers.take(1).drop_first() =~= Seq::<String>::empty());
        assert(sampler_options_of(samplers.take(1)) =~= sampler_options_of(samplers.take(0)) + (
        if trimmed(samplers[0]@).len() == 0 {
            Seq::<char>::empty()
        } else {
            "/"@ + trimmed(samplers[0]@)
        }));
    } else {
        lemma_sampler_options_snoc(samplers.drop_first(), i - 1);
        assert(samplers.take(i + 1)[0] == samplers[0]);
        assert(samplers.take(i + 1).drop_first() =~= samplers.drop_first().take(i));
        assert(samplers.take(i)[0] == samplers[0]);
        assert(samplers.take(i).drop_first() =~= samplers.drop_first().take(i - 1));
        assert(samplers.drop_first()[i - 1] == samplers[i]);
        assert(sampler_options_of(samplers.take(i + 1)) =~= sampler_options_of(samplers.take(i)) + (
        if trimmed(samplers[i]@).len() == 0 {
            Seq::<char>::empty()
        } else {
            "/"@ + trimmed(samplers[i]@)
        }));
    }
}

impl AdvancedSamplerConfig {
    /// The option text handed to the sampler-chain parser.
    pub fn sampler_options(&self) -> (r: String)
        ensures
            r@ == sampler_options_of(self.samplers@),
    {
        let n = self.samplers.len();
        let mut out = String::new();
        proof {
            assert(self.samplers@.take(0int) =~= Seq::<String>::empty());
            assert(out@ =~= sampler_options_of(self.samplers@.take(0int)));
        }
        let mut i: usize = 0;
        while i < n
            invariant
                i <= n,
                n == self.samplers@.len(),
                out@ == sampler_options_of(self.samplers@.take(i as int)),
            decreases n - i,
        {
            proof {
                lemma_sampler_options_snoc(self.samplers@, i as int);
            }
            let t = trim_exec(self.samplers[i].as_str());
            if t.as_str().unicode_len() > 0 {
                out.append("/");
                out.append(t.as_str());
            }
            proof {
                assert(out@ =~= sampler_options_of(self.samplers@.take(i + 1)));
            }
            i = i + 1;
        }
        proof {
            assert(self.samplers@.take(n as int) =~= self.samplers@);
        }
        out
    }
}

} // verus!
