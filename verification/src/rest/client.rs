//! Search queries and what is taken out of search responses.

use vstd::prelude::*;

use crate::double_bits;
use crate::double_bits::narrow;
use crate::float_bits;
use crate::rest::types;
use crate::rest::types::{SearchRequest, SearchResponse, SearchResultItem};
use crate::text;
use crate::text::{chars_of, part_of, prefixed, push_signed, text_of};

verus! {

/// A search service: where its endpoints are.
#[derive(Debug)]
pub struct RestClient {
    pub base_url: String,
}

/// Result from retrieval query.
#[derive(Debug)]
pub struct RetrievalResult {
    /// Retrieved token sequences from document metadata.
    pub token_sequences: Vec<Vec<usize>>,
    /// Bit patterns of the similarity scores for each sequence.
    pub scores: Vec<u32>,
}

impl RetrievalResult {
    /// Check if retrieval returned any sequences.
    pub fn is_empty(&self) -> (b: bool)
        ensures
            b == (self.token_sequences@.len() == 0),
    {
        self.token_sequences.len() == 0
    }
}

impl Default for RetrievalResult {
    fn default() -> (r: RetrievalResult)
        ensures
            r.token_sequences@.len() == 0,
            r.scores@.len() == 0,
    {
        RetrievalResult { token_sequences: Vec::new(), scores: Vec::new() }
    }
}

/// Errors from REST operations, with the text of what went wrong.
#[derive(Debug)]
pub enum RestError {
    /// HTTP request failed.
    Http(String),
    /// JSON parsing failed.
    Json(String),
    /// API returned unsuccessful response.
    Api(String),
}

impl RestError {
    /// The message of an error.
    pub fn message(&self) -> (s: String)
        ensures
            s@ == (match self {
                RestError::Http(e) => "HTTP error: "@ + e@,
                RestError::Json(e) => "JSON error: "@ + e@,
                RestError::Api(e) => "API error: "@ + e@,
            }),
    {
        match self {
            RestError::Http(e) => prefixed("HTTP error: ", e.as_str()),
            RestError::Json(e) => prefixed("JSON error: ", e.as_str()),
            RestError::Api(e) => prefixed("API error: ", e.as_str()),
        }
    }
}

/// The first `n` buckets as words `h3 h-1 ...`, separated by spaces.
pub open spec fn bucket_words(buckets: Seq<i32>, n: nat) -> Seq<char>
    decreases n,
{
    if n == 0 {
        seq![]
    } else {
        let word = seq!['h'] + text::signed_decimal(buckets[n - 1] as int);
        if n == 1 {
            word
        } else {
            bucket_words(buckets, (n - 1) as nat) + seq![' '] + word
        }
    }
}

/// The search text for an embedding of `len` numbers, given the buckets of its first ones.
pub fn embedding_to_query(len: usize, buckets: &Vec<i32>) -> (q: String)
    ensures
        q@ == (if len == 0 {
            "embedding"@
        } else {
            bucket_words(buckets@, buckets@.len())
        }),
{
    if len == 0 {
        return "embedding".to_owned();
    }
    let mut q = String::new();
    let mut i: usize = 0;
    assert(q@ =~= bucket_words(buckets@, 0));
    while i < buckets.len()
        invariant
            i <= buckets@.len(),
            q@ == bucket_words(buckets@, i as nat),
        decreases buckets@.len() - i,
    {
        if i > 0 {
            q.push(' ');
        }
        q.push('h');
        push_signed(&mut q, buckets[i] as i64);
        assert(q@ =~= bucket_words(buckets@, (i + 1) as nat));
        i = i + 1;
    }
    q
}

/// An address without the slashes at its end.
pub open spec fn without_slashes(s: Seq<char>) -> Seq<char>
    decreases s.len(),
{
    if s.len() > 0 && s.last() == '/' {
        without_slashes(s.drop_last())
    } else {
        s
    }
}

/// The items among the first `n` that hold a token sequence: the sequences.
pub open spec fn kept_tokens(items: Seq<SearchResultItem>, n: nat) -> Seq<Seq<usize>>
    decreases n,
{
    if n == 0 {
        seq![]
    } else {
        let rest = kept_tokens(items, (n - 1) as nat);
        match types::described_tokens(items[n - 1].description@) {
            Some(t) => rest.push(t),
            None => rest,
        }
    }
}

/// The items among the first `n` that hold a token sequence: the scores, in single precision.
pub open spec fn kept_scores(items: Seq<SearchResultItem>, n: nat) -> Seq<u32>
    decreases n,
{
    if n == 0 {
        seq![]
    } else {
        let rest = kept_scores(items, (n - 1) as nat);
        match types::described_tokens(items[n - 1].description@) {
            Some(t) => rest.push(double_bits::narrowed(items[n - 1].score) as u32),
            None => rest,
        }
    }
}

impl RestClient {
    /// Create a new REST client pointing to a base URL. Slashes at its end are dropped.
    ///
    /// Example: `RestClient::new("http://localhost:9090")`
    pub fn new(base_url: &str) -> (c: RestClient)
        ensures
            c.base_url@ == without_slashes(base_url@),
    {
        let chars = chars_of(base_url);
        let mut n: usize = chars.len();
        assert(chars@.take(n as int) =~= chars@);
        while n > 0 && chars[n - 1] == '/'
            invariant
                n <= chars@.len(),
                without_slashes(base_url@) == without_slashes(chars@.take(n as int)),
            ensures
                n <= chars@.len(),
                without_slashes(base_url@) == chars@.take(n as int),
            decreases n,
        {
            assert(chars@.take(n as int).drop_last() =~= chars@.take(n - 1));
            n = n - 1;
        }
        let kept = part_of(chars.as_slice(), 0, n);
        RestClient { base_url: text_of(kept.as_slice()) }
    }

    /// Get the base URL this client is configured with.
    pub fn base_url(&self) -> (s: &str)
        ensures
            s@ == self.base_url@,
    {
        self.base_url.as_str()
    }

    /// The address of the vector search endpoint.
    pub fn search_url(&self) -> (s: String)
        ensures
            s@ == self.base_url@ + "/search/vector"@,
    {
        prefixed(self.base_url.as_str(), "/search/vector")
    }

    /// The request for a text query.
    pub fn search_request(&self, query: &str, top_k: usize) -> (r: SearchRequest)
        ensures
            r.query@ == query@,
            r.limit == Some(top_k as u32),
            r.db is None,
    {
        SearchRequest::new(query, top_k as u32)
    }

    /// What a response holds: the token sequences found in its results, with their scores, in
    /// order. An unsuccessful response is an error.
    pub fn read_response(&self, response: &SearchResponse) -> (r: Result<
        RetrievalResult,
        RestError,
    >)
        ensures
            !response.success ==> (r matches Err(RestError::Api(m)) && m@
                == "unsuccessful response"@),
            response.success ==> (r matches Ok(found) && ({
                let items = match response.data {
                    Some(v) => v@,
                    None => seq![],
                };
                &&& found.scores@ == kept_scores(items, items.len())
                &&& found.token_sequences@.map_values(|t: Vec<usize>| t@) == kept_tokens(
                    items,
                    items.len(),
                )
            })),
    {
        if !response.success {
            return Err(RestError::Api("unsuccessful response".to_owned()));
        }
        let mut found = RetrievalResult::default();
        assert(found.scores@ =~= seq![]);
        assert(found.token_sequences@.map_values(|t: Vec<usize>| t@) =~= seq![]);
        if let Some(items) = &response.data {
            let mut i: usize = 0;
            while i < items.len()
                invariant
                    i <= items@.len(),
                    found.scores@ == kept_scores(items@, i as nat),
                    found.token_sequences@.map_values(|t: Vec<usize>| t@) == kept_tokens(
                        items@,
                        i as nat,
                    ),
                decreases items@.len() - i,
            {
                if let Some(tokens) = items[i].extract_token_sequence() {
                    let ghost before = found.token_sequences@;
                    found.token_sequences.push(tokens);
                    found.scores.push(narrow(items[i].score));
                    assert(found.token_sequences@.map_values(|t: Vec<usize>| t@)
                        =~= before.map_values(|t: Vec<usize>| t@).push(tokens@));
                }
                i = i + 1;
            }
        }
        Ok(found)
    }
}

/// The score that an item is kept with.
pub open spec fn kept_key(item: SearchResultItem) -> int {
    float_bits::key(double_bits::narrowed(item.score) as u32)
}

/// What the service ranks by similarity stays ranked: where the items come with falling scores, so
/// do the sequences found in them.
pub proof fn law_ranking_is_kept(items: Seq<SearchResultItem>, n: nat)
    requires
        n <= items.len(),
        forall|i: int| 0 <= i < items.len() ==> double_bits::is_number((#[trigger] items[i]).score),
        forall|i: int, j: int|
            0 <= i <= j < items.len() ==> double_bits::key((#[trigger] items[j]).score)
                <= double_bits::key((#[trigger] items[i]).score),
    ensures
        kept_scores(items, n).len() == kept_tokens(items, n).len(),
        forall|i: int, j: int|
            0 <= i <= j < kept_scores(items, n).len() ==> float_bits::key(
                #[trigger] kept_scores(items, n)[j],
            ) <= float_bits::key(#[trigger] kept_scores(items, n)[i]),
{
    lemma_ranking(items, n);
}

proof fn lemma_ranking(items: Seq<SearchResultItem>, n: nat)
    requires
        n <= items.len(),
        forall|i: int| 0 <= i < items.len() ==> double_bits::is_number((#[trigger] items[i]).score),
        forall|i: int, j: int|
            0 <= i <= j < items.len() ==> double_bits::key((#[trigger] items[j]).score)
                <= double_bits::key((#[trigger] items[i]).score),
    ensures
        kept_scores(items, n).len() == kept_tokens(items, n).len(),
        forall|i: int, j: int|
            0 <= i <= j < kept_scores(items, n).len() ==> float_bits::key(
                #[trigger] kept_scores(items, n)[j],
            ) <= float_bits::key(#[trigger] kept_scores(items, n)[i]),
        n > 0 ==> forall|i: int|
            0 <= i < kept_scores(items, n).len() ==> kept_key(items[n - 1]) <= float_bits::key(
                #[trigger] kept_scores(items, n)[i],
            ),
    decreases n,
{
    if n > 0 {
        lemma_ranking(items, (n - 1) as nat);
        let rest = kept_scores(items, (n - 1) as nat);
        let all = kept_scores(items, n);
        assert forall|i: int| 0 <= i < all.len() implies kept_key(items[n - 1]) <= float_bits::key(
            #[trigger] all[i],
        ) by {
            if i < rest.len() {
                assert(all[i] == rest[i]);
                double_bits::law_narrowing_keeps_order(items[n - 1].score, items[n - 2].score);
            }
        }
        assert forall|i: int, j: int| 0 <= i <= j < all.len() implies float_bits::key(
            #[trigger] all[j],
        ) <= float_bits::key(#[trigger] all[i]) by {
            if j < rest.len() {
                assert(all[i] == rest[i] && all[j] == rest[j]);
            }
        }
    }
}

/// A base URL that ends in no slash is kept, and none that is kept ends in one.
pub proof fn law_base_url_has_no_trailing_slash(s: Seq<char>)
    ensures
        without_slashes(s).len() > 0 ==> without_slashes(s).last() != '/',
        without_slashes(without_slashes(s)) == without_slashes(s),
        without_slashes(s).is_prefix_of(s),
    decreases s.len(),
{
    if s.len() > 0 && s.last() == '/' {
        law_base_url_has_no_trailing_slash(s.drop_last());
    }
}

/// Each bucket is a word of the query, in order: the letter h and the number of the bucket.
pub proof fn law_buckets_are_words(buckets: Seq<i32>, n: nat)
    requires
        n < buckets.len(),
    ensures
        bucket_words(buckets, 1) == seq!['h'] + text::signed_decimal(buckets[0] as int),
        0 < n ==> bucket_words(buckets, n + 1) == bucket_words(buckets, n) + seq![' ', 'h']
            + text::signed_decimal(buckets[n as int] as int),
{
    if n > 0 {
        let word = text::signed_decimal(buckets[n as int] as int);
        assert(bucket_words(buckets, n) + seq![' '] + (seq!['h'] + word) =~= bucket_words(
            buckets,
            n,
        ) + seq![' ', 'h'] + word);
    }
}

/// A token sequence is kept for each item that holds one, with that item's score, in the order of
/// the items.
pub proof fn law_found_sequences_keep_their_scores(items: Seq<SearchResultItem>, n: nat, i: int)
    requires
        n <= items.len(),
        0 <= i < n,
        types::described_tokens(items[i].description@) is Some,
    ensures
        exists|k: int|
            0 <= k < kept_tokens(items, n).len() && k < kept_scores(items, n).len()
                && #[trigger] kept_tokens(items, n)[k] == types::described_tokens(
                items[i].description@,
            )->0 && kept_scores(items, n)[k] == double_bits::narrowed(items[i].score) as u32,
        kept_tokens(items, n).len() == kept_scores(items, n).len(),
    decreases n,
{
    lemma_kept_lengths(items, (n - 1) as nat);
    lemma_kept_lengths(items, n);
    let tokens = kept_tokens(items, n);
    if i < n - 1 {
        law_found_sequences_keep_their_scores(items, (n - 1) as nat, i);
        let rest = kept_tokens(items, (n - 1) as nat);
        let k = choose|k: int|
            0 <= k < rest.len() && k < kept_scores(items, (n - 1) as nat).len() && #[trigger] rest[k]
                == types::described_tokens(items[i].description@)->0 && kept_scores(
                items,
                (n - 1) as nat,
            )[k] == double_bits::narrowed(items[i].score) as u32;
        assert(tokens[k] == rest[k]);
        assert(kept_scores(items, n)[k] == kept_scores(items, (n - 1) as nat)[k]);
    } else {
        assert(tokens[tokens.len() - 1] == types::described_tokens(items[i].description@)->0);
    }
}

proof fn lemma_kept_lengths(items: Seq<SearchResultItem>, n: nat)
    ensures
        kept_tokens(items, n).len() == kept_scores(items, n).len(),
    decreases n,
{
    if n > 0 {
        lemma_kept_lengths(items, (n - 1) as nat);
    }
}

/// Only slashes are dropped from the end of an address.
pub proof fn law_only_slashes_are_dropped(s: Seq<char>, k: int)
    requires
        without_slashes(s).len() <= k < s.len(),
    ensures
        s[k] == '/',
    decreases s.len(),
{
    if s.len() > 0 && s.last() == '/' && k < s.len() - 1 {
        law_only_slashes_are_dropped(s.drop_last(), k);
    }
}

} // verus!
