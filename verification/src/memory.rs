//! The ingestion path of the vector memory: cleaning text with the
//! configured filter patterns, then chunking token streams hierarchically so
//! that every chunk fits the embedding window.

use vstd::prelude::*;
use vstd::string::*;

verus! {

/// A memory adapter failure.
#[derive(Debug)]
pub enum MemoryError {
    DimensionalityMismatch,
    Storage(String),
}

/// Which store backs a memory: the embedded index (optionally persisted at
/// a path), or an external vector database by URL and collection name.
#[derive(Debug)]
pub enum MemoryStoreConfig {
    Hora { path: Option<String> },
    Qdrant { url: String, collection: String },
}

/// Configuration of one memory.
#[derive(Debug)]
pub struct MemoryConfig {
    /// The type of memory to be constructed.
    pub store: MemoryStoreConfig,
    /// Number of dimensions for embedding vectors.
    pub dimensions: usize,
    /// Model to use for embedding.
    pub embedding_model: String,
    /// Separators to use while chunking.
    pub chunk_separators: Vec<String>,
    /// Maximum length for a chunk, in tokens.
    pub chunk_max_tokens: usize,
    /// Patterns removed before chunking, each replaced by a single space.
    pub pre_filter: Vec<String>,
    /// Tokens removed after chunking.
    pub post_filter: Vec<String>,
}

/// Per-task memorization settings.
#[derive(Debug)]
pub struct TaskMemorizationConfig {
    /// The memory to use.
    pub memory: String,
    /// Whether to store prompts.
    pub store_prompts: bool,
    /// How many items from the memory to retrieve.
    pub retrieve: Option<usize>,
}

/// A token with the characters it decodes to.
pub type TokenWithCharacters = (Vec<u8>, u32);

/// Concatenation of a list of chunks.
pub open spec fn concat_chunks(cs: Seq<Seq<TokenWithCharacters>>) -> Seq<TokenWithCharacters>
    decreases cs.len(),
{
    if cs.len() == 0 {
        Seq::empty()
    } else {
        cs[0] + concat_chunks(cs.drop_first())
    }
}

proof fn lemma_concat_push(cs: Seq<Seq<TokenWithCharacters>>, c: Seq<TokenWithCharacters>)
    ensures
        concat_chunks(cs.push(c)) == concat_chunks(cs) + c,
    decreases cs.len(),
{
    reveal_with_fuel(concat_chunks, 3);
    if cs.len() == 0 {
        assert(cs.push(c)[0] == c);
        assert(cs.push(c).drop_first() =~= Seq::<Seq<TokenWithCharacters>>::empty());
        assert(concat_chunks(cs.push(c)) =~= concat_chunks(cs) + c);
    } else {
        assert(cs.push(c)[0] == cs[0]);
        assert(cs.push(c).drop_first() =~= cs.drop_first().push(c));
        lemma_concat_push(cs.drop_first(), c);
        assert(concat_chunks(cs.push(c)) =~= concat_chunks(cs) + c);
    }
}

proof fn lemma_concat_append(
    cs: Seq<Seq<TokenWithCharacters>>,
    ds: Seq<Seq<TokenWithCharacters>>,
)
    ensures
        concat_chunks(cs + ds) == concat_chunks(cs) + concat_chunks(ds),
    decreases ds.len(),
{
    reveal_with_fuel(concat_chunks, 3);
    if ds.len() == 0 {
        assert(cs + ds =~= cs);
        assert(concat_chunks(cs + ds) =~= concat_chunks(cs) + concat_chunks(ds));
    } else {
        assert((cs + ds.drop_last()).push(ds.last()) =~= cs + ds);
        assert(ds.drop_last().push(ds.last()) =~= ds);
        lemma_concat_append(cs, ds.drop_last());
        lemma_concat_push(cs + ds.drop_last(), ds.last());
        lemma_concat_push(ds.drop_last(), ds.last());
        assert(concat_chunks(cs + ds) =~= concat_chunks(cs) + concat_chunks(ds));
    }
}

/// Every chunk fits, and together the chunks are exactly the input.
pub open spec fn chunks_ok(
    chunks: Seq<Seq<TokenWithCharacters>>,
    tokens: Seq<TokenWithCharacters>,
    max: int,
) -> bool {
    &&& forall|i: int| 0 <= i < chunks.len() ==> (#[trigger] chunks[i]).len() <= max
    &&& concat_chunks(chunks) == tokens
}

/// Apply successive separators to a token stream until every chunk fits in
/// `max_chunk_tokens` tokens; when no separator is left, cut at the maximum.
pub fn hierarchically_chunk(
    tokens: Vec<TokenWithCharacters>,
    separators: &Vec<u32>,
    max_chunk_tokens: usize,
) -> (r: Vec<Vec<TokenWithCharacters>>)
    requires
        max_chunk_tokens >= 1,
    ensures
        chunks_ok(r@.map_values(|c: Vec<TokenWithCharacters>| c@), tokens@, max_chunk_tokens as int),
{
    chunk_from(tokens, separators, 0, max_chunk_tokens)
}

/// The chunk views of a chunk list.
pub open spec fn chunk_views(r: Seq<Vec<TokenWithCharacters>>) -> Seq<Seq<TokenWithCharacters>> {
    r.map_values(|c: Vec<TokenWithCharacters>| c@)
}

fn chunk_from(
    mut tokens: Vec<TokenWithCharacters>,
    separators: &Vec<u32>,
    si: usize,
    max: usize,
) -> (r: Vec<Vec<TokenWithCharacters>>)
    requires
        max >= 1,
        si <= separators@.len(),
    ensures
        chunks_ok(chunk_views(r@), tokens@, max as int),
    decreases separators@.len() - si, tokens@.len(),
{
    let n = tokens.len();
    let ghost orig = tokens@;
    if n <= max {
        let mut out: Vec<Vec<TokenWithCharacters>> = Vec::new();
        out.push(tokens);
        proof {
            reveal_with_fuel(concat_chunks, 3);
            assert(chunk_views(out@) =~= seq![orig]);
            assert(seq![orig][0] == orig);
            assert(seq![orig].drop_first() =~= Seq::<Seq<TokenWithCharacters>>::empty());
            assert(concat_chunks(seq![orig]) =~= orig);
        }
        out
    } else if si < separators.len() {
        let sep = separators[si];
        let mut chunks: Vec<Vec<TokenWithCharacters>> = Vec::new();
        let mut current: Vec<TokenWithCharacters> = Vec::new();
        let mut i: usize = 0;
        proof {
            assert(concat_chunks(chunk_views(chunks@)) + current@ =~= tokens@.take(0int));
        }
        while i < n
            invariant
                i <= n,
                n == orig.len(),
                tokens@ =~= orig.skip(i as int),
                max >= 1,
                si < separators@.len(),
                current@.len() <= max,
                forall|j: int|
                    0 <= j < chunk_views(chunks@).len() ==> (#[trigger] chunk_views(
                        chunks@,
                    )[j]).len() <= max,
                concat_chunks(chunk_views(chunks@)) + current@ == orig.take(i as int),
            decreases n - i,
        {
            // Collect the next separator-terminated split.
            let mut split: Vec<TokenWithCharacters> = Vec::new();
            let ghost start = i as int;
            while i < n && (split.len() == 0 || split[split.len() - 1].1 != sep)
                invariant
                    start <= i <= n,
                    n == orig.len(),
                    tokens@ =~= orig.skip(i as int),
                    split@ =~= orig.subrange(start, i as int),
                decreases n - i,
            {
                let t = tokens.remove(0);
                proof {
                    assert(t == orig[i as int]);
                }
                split.push(t);
                proof {
                    assert(split@ =~= orig.subrange(start, i + 1));
                    assert(tokens@ =~= orig.skip(i + 1));
                }
                i = i + 1;
            }
            proof {
                assert(i as int > start) by {
                    if i as int == start {
                        assert(split@.len() == 0);
                    }
                }
            }
            let ghost split_v = split@;
            let ghost cv0 = chunk_views(chunks@);
            let ghost cur0 = current@;
            proof {
                assert(orig.take(i as int) =~= orig.take(start) + split_v);
            }
            if split.len() > max {
                // This split can never fit: recurse with the next separator.
                let finished = take_vec(&mut current);
                chunks.push(finished);
                proof {
                    assert(chunk_views(chunks@) =~= cv0.push(cur0));
                    lemma_concat_push(cv0, cur0);
                }
                let ghost cv1 = chunk_views(chunks@);
                let mut sub = chunk_from(split, separators, si + 1, max);
                let ghost sv = chunk_views(sub@);
                append_chunks(&mut chunks, &mut sub);
                proof {
                    assert(chunk_views(chunks@) =~= cv1 + sv);
                    lemma_concat_append(cv1, sv);
                    assert(concat_chunks(chunk_views(chunks@)) + current@ =~= orig.take(
                        i as int,
                    ));
                    assert forall|j: int|
                        0 <= j < chunk_views(chunks@).len() implies (#[trigger] chunk_views(
                        chunks@,
                    )[j]).len() <= max by {
                        if j < cv1.len() {
                            assert(chunk_views(chunks@)[j] == cv1[j]);
                        } else {
                            assert(chunk_views(chunks@)[j] == sv[j - cv1.len()]);
                        }
                    }
                }
            } else if split.len() + current.len() < max {
                append_tokens(&mut current, &mut split);
                proof {
                    assert(current@ =~= cur0 + split_v);
                    assert(concat_chunks(chunk_views(chunks@)) + current@ =~= orig.take(i as int));
                }
            } else {
                let finished = take_vec(&mut current);
                chunks.push(finished);
                proof {
                    assert(chunk_views(chunks@) =~= cv0.push(cur0));
                    lemma_concat_push(cv0, cur0);
                }
                append_tokens(&mut current, &mut split);
                proof {
                    assert(current@ =~= split_v);
                    assert(concat_chunks(chunk_views(chunks@)) + current@ =~= orig.take(i as int));
                    assert forall|j: int|
                        0 <= j < chunk_views(chunks@).len() implies (#[trigger] chunk_views(
                        chunks@,
                    )[j]).len() <= max by {
                        if j < cv0.len() {
                            assert(chunk_views(chunks@)[j] == cv0[j]);
                        }
                    }
                }
            }
        }
        if current.len() > 0 {
            let ghost cv0 = chunk_views(chunks@);
            let ghost cur0 = current@;
            chunks.push(current);
            proof {
                assert(chunk_views(chunks@) =~= cv0.push(cur0));
                lemma_concat_push(cv0, cur0);
                assert forall|j: int|
                    0 <= j < chunk_views(chunks@).len() implies (#[trigger] chunk_views(
                    chunks@,
                )[j]).len() <= max by {
                    if j < cv0.len() {
                        assert(chunk_views(chunks@)[j] == cv0[j]);
                    }
                }
            }
        } else {
            proof {
                assert(concat_chunks(chunk_views(chunks@)) =~= concat_chunks(chunk_views(chunks@))
                    + current@);
            }
        }
        proof {
            assert(orig.take(n as int) =~= orig);
        }
        chunks
    } else {
        // No separators left: cut at the maximum size.
        let mut chunks: Vec<Vec<TokenWithCharacters>> = Vec::new();
        let mut current: Vec<TokenWithCharacters> = Vec::new();
        let mut i: usize = 0;
        proof {
            assert(concat_chunks(chunk_views(chunks@)) + current@ =~= tokens@.take(0int));
        }
        while i < n
            invariant
                i <= n,
                n == orig.len(),
                tokens@ =~= orig.skip(i as int),
                max >= 1,
                current@.len() < max,
                forall|j: int|
                    0 <= j < chunk_views(chunks@).len() ==> (#[trigger] chunk_views(
                        chunks@,
                    )[j]).len() <= max,
                concat_chunks(chunk_views(chunks@)) + current@ == orig.take(i as int),
            decreases n - i,
        {
            let t = tokens.remove(0);
            proof {
                assert(t == orig[i as int]);
            }
            current.push(t);
            proof {
                assert(concat_chunks(chunk_views(chunks@)) + current@ =~= orig.take(i + 1));
                assert(tokens@ =~= orig.skip(i + 1));
            }
            i = i + 1;
            if current.len() == max {
                let ghost cv0 = chunk_views(chunks@);
                let ghost cur0 = current@;
                let finished = take_vec(&mut current);
                chunks.push(finished);
                proof {
                    assert(chunk_views(chunks@) =~= cv0.push(cur0));
                    lemma_concat_push(cv0, cur0);
                    assert(concat_chunks(chunk_views(chunks@)) + current@ =~= orig.take(
                        i as int,
                    ));
                    assert forall|j: int|
                        0 <= j < chunk_views(chunks@).len() implies (#[trigger] chunk_views(
                        chunks@,
                    )[j]).len() <= max by {
                        if j < cv0.len() {
                            assert(chunk_views(chunks@)[j] == cv0[j]);
                        }
                    }
                }
            }
        }
        if current.len() > 0 {
            let ghost cv0 = chunk_views(chunks@);
            let ghost cur0 = current@;
            chunks.push(current);
            proof {
                assert(chunk_views(chunks@) =~= cv0.push(cur0));
                lemma_concat_push(cv0, cur0);
                assert forall|j: int|
                    0 <= j < chunk_views(chunks@).len() implies (#[trigger] chunk_views(
                    chunks@,
                )[j]).len() <= max by {
                    if j < cv0.len() {
                        assert(chunk_views(chunks@)[j] == cv0[j]);
                    }
                }
            }
        } else {
            proof {
                assert(concat_chunks(chunk_views(chunks@)) =~= concat_chunks(chunk_views(chunks@))
                    + current@);
            }
        }
        proof {
            assert(orig.take(n as int) =~= orig);
        }
        chunks
    }
}

/// Move the contents out, leaving an empty vector.
fn take_vec(v: &mut Vec<TokenWithCharacters>) -> (r: Vec<TokenWithCharacters>)
    ensures
        r@ == old(v)@,
        final(v)@ == Seq::<TokenWithCharacters>::empty(),
{
    let mut out: Vec<TokenWithCharacters> = Vec::new();
    core::mem::swap(&mut out, v);
    out
}

/// Move all of `src` onto the end of `dst`.
fn append_tokens(dst: &mut Vec<TokenWithCharacters>, src: &mut Vec<TokenWithCharacters>)
    ensures
        final(dst)@ == old(dst)@ + old(src)@,
{
    dst.append(src);
}

/// Move all of `src` onto the end of `dst`, chunk-wise.
fn append_chunks(dst: &mut Vec<Vec<TokenWithCharacters>>, src: &mut Vec<Vec<TokenWithCharacters>>)
    ensures
        final(dst)@ == old(dst)@ + old(src)@,
{
    dst.append(src);
}

} // verus!

verus! {

/// What `regex::Regex::new` accepts: validity of a pattern depends on the
/// pattern text alone.
pub uninterp spec fn regex_pattern_ok(pattern: Seq<char>) -> bool;

/// What `regex::Regex::replace_all` returns when every match is replaced by
/// one space: a function of the pattern and the text alone.
pub uninterp spec fn regex_replaced_spaced(pattern: Seq<char>, text: Seq<char>) -> Seq<char>;

/// Relies on `regex::Regex::new` (fails exactly on invalid patterns) and
/// `regex::Regex::replace_all` (replaces every non-overlapping match, here
/// with a single space; deterministic in the pattern and text).
#[verifier::external_body]
fn regex_replace_with_space(pattern: &str, text: &str) -> (r: Option<String>)
    ensures
        match r {
            Some(s) => regex_pattern_ok(pattern@) && s@ == regex_replaced_spaced(pattern@, text@),
            None => !regex_pattern_ok(pattern@),
        },
{
    match regex::Regex::new(pattern) {
        Ok(re) => Some(re.replace_all(text, " ").to_string()),
        Err(_) => None,
    }
}

/// Left-to-right, non-overlapping replacement of double spaces by single
/// spaces, as `str::replace("  ", " ")` performs it.
pub open spec fn collapse_double_spaces(s: Seq<char>) -> Seq<char>
    decreases s.len(),
{
    if s.len() >= 2 && s[0] == ' ' && s[1] == ' ' {
        seq![' '] + collapse_double_spaces(s.skip(2))
    } else if s.len() >= 1 {
        seq![s[0]] + collapse_double_spaces(s.skip(1))
    } else {
        Seq::empty()
    }
}

/// One pattern applied after another, starting from `text`; nothing when
/// some pattern is invalid.
pub open spec fn spec_filters_applied(patterns: Seq<String>, text: Seq<char>) -> Option<Seq<char>>
    decreases patterns.len(),
{
    if patterns.len() == 0 {
        Some(text)
    } else if !regex_pattern_ok(patterns[0]@) {
        None
    } else {
        spec_filters_applied(patterns.drop_first(), regex_replaced_spaced(patterns[0]@, text))
    }
}

/// The cleaned ingest text: each pre-filter pattern replaced by a space in
/// turn, then double spaces collapsed once. Unchanged when no pattern is
/// configured; nothing when a pattern is invalid.
pub open spec fn spec_pre_filtered(patterns: Seq<String>, text: Seq<char>) -> Option<Seq<char>> {
    if patterns.len() == 0 {
        Some(text)
    } else {
        match spec_filters_applied(patterns, text) {
            Some(u) => Some(collapse_double_spaces(u)),
            None => None,
        }
    }
}

/// Collapse runs of two spaces, exactly as the specification function says.
fn collapse_spaces_exec(s: &str) -> (r: String)
    ensures
        r@ == collapse_double_spaces(s@),
{
    let n = s.unicode_len();
    let mut out = String::new();
    let mut i: usize = 0;
    proof {
        assert(s@.skip(0int) =~= s@);
        assert(out@ + collapse_double_spaces(s@) =~= collapse_double_spaces(s@));
    }
    while i < n
        invariant
            i <= n,
            n == s@.len(),
            out@ + collapse_double_spaces(s@.skip(i as int)) == collapse_double_spaces(s@),
        decreases n - i,
    {
        let c = s.get_char(i);
        if c == ' ' && i + 1 < n && s.get_char(i + 1) == ' ' {
            out.append(" ");
            proof {
                reveal_strlit(" ");
                assert(s@.skip(i as int)[0] == ' ' && s@.skip(i as int)[1] == ' ');
                assert(s@.skip(i as int).skip(2) =~= s@.skip(i + 2));
                assert(out@ + collapse_double_spaces(s@.skip(i + 2)) =~= collapse_double_spaces(
                    s@,
                ));
            }
            i = i + 2;
        } else {
            let piece = s.substring_char(i, i + 1);
            proof {
                assert(piece@ =~= seq![c]);
            }
            out.append(piece);
            proof {
                assert(s@.skip(i as int)[0] == c);
                assert(s@.skip(i as int).skip(1) =~= s@.skip(i + 1));
                assert(out@ + collapse_double_spaces(s@.skip(i + 1)) =~= collapse_double_spaces(
                    s@,
                ));
            }
            i = i + 1;
        }
    }
    proof {
        assert(s@.skip(n as int).len() == 0);
        assert(out@ =~= collapse_double_spaces(s@));
    }
    out
}

/// Clean ingest text with the configured patterns: each pattern's matches
/// become single spaces, then double spaces collapse. An invalid pattern is
/// reported as a storage error carrying the pattern.
pub fn apply_pre_filter(patterns: &Vec<String>, text: String) -> (r: Result<String, MemoryError>)
    ensures
        match r {
            Ok(s) => spec_pre_filtered(patterns@, text@) == Some(s@),
            Err(_) => spec_pre_filtered(patterns@, text@) is None,
        },
{
    if patterns.len() == 0 {
        return Ok(text);
    }
    let n = patterns.len();
    let mut cur = text;
    let mut i: usize = 0;
    proof {
        assert(patterns@.skip(0int) =~= patterns@);
    }
    while i < n
        invariant
            i <= n,
            n == patterns@.len(),
            spec_filters_applied(patterns@, text@) == spec_filters_applied(
                patterns@.skip(i as int),
                cur@,
            ),
        decreases n - i,
    {
        proof {
            assert(patterns@.skip(i as int)[0] == patterns@[i as int]);
            assert(patterns@.skip(i as int).drop_first() =~= patterns@.skip(i + 1));
        }
        match regex_replace_with_space(patterns[i].as_str(), cur.as_str()) {
            Option::Some(next) => {
                cur = next;
            },
            Option::None => {
                return Err(MemoryError::Storage(patterns[i].clone()));
            },
        }
        i = i + 1;
    }
    proof {
        assert(patterns@.skip(n as int).len() == 0);
    }
    let out = collapse_spaces_exec(cur.as_str());
    Ok(out)
}

} // verus!
