//! REST types for vector search and tokenization.
//!
//! Token sequences are stored in document descriptions as comma-separated IDs.

use vstd::prelude::*;

use crate::float_bits;
use crate::random::ONE_BITS;
use crate::speculative::verify::INFINITY_BITS;
use crate::text;
use crate::text::{chars_of, find_char, lower_chars, part_of, same_chars, text_of, trim_chars};

verus! {

/// Request body for the `/search/vector` endpoint.
#[derive(Debug)]
pub struct SearchRequest {
    /// Text query for vector search.
    pub query: String,
    /// Maximum number of results to return.
    pub limit: Option<u32>,
    /// Optional database name.
    pub db: Option<String>,
}

impl SearchRequest {
    /// Create a new search request with query text and limit.
    pub fn new(query: &str, limit: u32) -> (r: SearchRequest)
        ensures
            r.query@ == query@,
            r.limit == Some(limit),
            r.db is None,
    {
        SearchRequest { query: query.to_owned(), limit: Some(limit), db: None }
    }
}

/// Response of the search endpoint.
#[derive(Debug)]
pub struct SearchResponse {
    /// Whether the request was successful.
    pub success: bool,
    /// Search results (present when success is true).
    pub data: Option<Vec<SearchResultItem>>,
    /// Debug information as JSON text (present when it was asked for).
    pub debug: Option<String>,
}

/// Single search result.
#[derive(Debug)]
pub struct SearchResultItem {
    /// Document title.
    pub title: String,
    /// Document link/identifier.
    pub link: String,
    /// Document description. May contain token sequence as "tokens:1,2,3,4".
    pub description: String,
    /// Bit pattern of the relevance score in double precision.
    pub score: u64,
}

/// The marker before a token sequence.
pub open spec fn marker() -> Seq<char> {
    seq!['t', 'o', 'k', 'e', 'n', 's', ':']
}

/// The first place from `i` on where the marker stands, in any case, or nothing.
pub open spec fn find_marker(d: Seq<char>, i: int) -> Option<int>
    decreases d.len() - i,
{
    if i + 7 > d.len() {
        None
    } else if text::lowered(d.subrange(i, i + 7)) == marker() {
        Some(i)
    } else {
        find_marker(d, i + 1)
    }
}

/// True for a digit or a comma.
pub open spec fn in_list(c: char) -> bool {
    ('0' <= c && c <= '9') || c == ','
}

/// The first place from `i` on that is neither a digit nor a comma, or the length.
pub open spec fn list_end(d: Seq<char>, i: int) -> int
    decreases d.len() - i,
{
    if i >= d.len() {
        d.len() as int
    } else if in_list(d[i]) {
        list_end(d, i + 1)
    } else {
        i
    }
}

/// The numbers completed and the number begun after `n` characters of a list; nothing once a
/// number is missing or too large.
pub open spec fn scanned(s: Seq<char>, n: nat) -> Option<(Seq<usize>, Option<nat>)>
    decreases n,
{
    if n == 0 {
        Some((seq![], None))
    } else {
        match scanned(s, (n - 1) as nat) {
            None => None,
            Some((done, begun)) => {
                let c = s[n - 1];
                if c == ',' {
                    match begun {
                        Some(v) => Some((done.push(v as usize), None)),
                        None => None,
                    }
                } else {
                    let v = (if begun is Some {
                        begun->0
                    } else {
                        0
                    }) * 10 + (c as u32 - 48) as nat;
                    if v > usize::MAX {
                        None
                    } else {
                        Some((done, Some(v)))
                    }
                }
            },
        }
    }
}

/// The numbers of a list of digits and commas: each one present and in range.
pub open spec fn number_list(s: Seq<char>) -> Option<Seq<usize>> {
    match scanned(s, s.len()) {
        Some((done, Some(v))) => Some(done.push(v as usize)),
        _ => None,
    }
}

/// The token sequence that a description holds.
pub open spec fn described_tokens(d: Seq<char>) -> Option<Seq<usize>> {
    match find_marker(d, 0) {
        Some(i) => number_list(d.subrange(i + 7, list_end(d, i + 7))),
        None => None,
    }
}

fn read_numbers(s: &[char]) -> (r: Option<Vec<usize>>)
    requires
        forall|i: int| 0 <= i < s@.len() ==> in_list(#[trigger] s@[i]),
    ensures
        match (r, number_list(s@)) {
            (Some(v), Some(w)) => v@ == w,
            (None, None) => true,
            _ => false,
        },
{
    let mut done: Vec<usize> = Vec::new();
    let mut begun: Option<usize> = None;
    let mut i: usize = 0;
    while i < s.len()
        invariant
            i <= s@.len(),
            forall|j: int| 0 <= j < s@.len() ==> in_list(#[trigger] s@[j]),
            scanned(s@, i as nat) matches Some((d, b)) && d == done@ && (match (b, begun) {
                (Some(v), Some(w)) => v == w,
                (None, None) => true,
                _ => false,
            }),
        decreases s@.len() - i,
    {
        let c: char = s[i];
        assert(in_list(s@[i as int]));
        if c == ',' {
            match begun {
                Some(v) => {
                    done.push(v);
                    begun = None;
                },
                None => {
                    proof {
                        lemma_scan_stops(s@, (i + 1) as nat, s@.len());
                    }
                    return None;
                },
            }
        } else {
            let digit: usize = (c as u32 - 48) as usize;
            let so_far: usize = match begun {
                Some(v) => v,
                None => 0,
            };
            if so_far > (usize::MAX - digit) / 10 {
                proof {
                    assert(so_far * 10 + digit > usize::MAX);
                    lemma_scan_stops(s@, (i + 1) as nat, s@.len());
                }
                return None;
            }
            begun = Some(so_far * 10 + digit);
        }
        i = i + 1;
    }
    match begun {
        Some(v) => {
            done.push(v);
            Some(done)
        },
        None => None,
    }
}

proof fn lemma_scan_stops(s: Seq<char>, n: nat, m: nat)
    requires
        n <= m,
        scanned(s, n) is None,
    ensures
        scanned(s, m) is None,
    decreases m,
{
    if n < m {
        lemma_scan_stops(s, n, (m - 1) as nat);
    }
}

impl SearchResultItem {
    /// Extract token sequence from description if present.
    ///
    /// Expects format: "tokens:1,2,3,4" somewhere in the description.
    /// Returns `None` if no token sequence found.
    pub fn extract_token_sequence(&self) -> (r: Option<Vec<usize>>)
        ensures
            match (r, described_tokens(self.description@)) {
                (Some(v), Some(w)) => v@ == w,
                (None, None) => true,
                _ => false,
            },
    {
        let d = chars_of(self.description.as_str());
        let wanted: [char; 7] = ['t', 'o', 'k', 'e', 'n', 's', ':'];
        assert(wanted@ =~= marker());
        let n: usize = d.len();
        let mut i: usize = 0;
        while n >= 7 && i <= n - 7
            invariant
                n == d@.len(),
                i <= n,
                n < 7 ==> i == 0,
                n >= 7 ==> i <= n - 6,
                d@ == self.description@,
                wanted@ == marker(),
                find_marker(d@, 0) == find_marker(d@, i as int),
            decreases n - i,
        {
            let window = part_of(d.as_slice(), i, i + 7);
            if same_chars(lower_chars(window.as_slice()).as_slice(), wanted.as_slice()) {
                let start: usize = i + 7;
                let mut end: usize = start;
                while end < n && ((d[end] >= '0' && d[end] <= '9') || d[end] == ',')
                    invariant
                        start <= end <= n == d@.len(),
                        list_end(d@, start as int) == list_end(d@, end as int),
                        forall|j: int| start <= j < end ==> in_list(#[trigger] d@[j]),
                    ensures
                        start <= end <= n,
                        end == list_end(d@, start as int),
                        forall|j: int| start <= j < end ==> in_list(#[trigger] d@[j]),
                    decreases n - end,
                {
                    end = end + 1;
                }
                let list = part_of(d.as_slice(), start, end);
                return read_numbers(list.as_slice());
            }
            i = i + 1;
        }
        None
    }
}

/// Per-request hints that signal intent to the speculative decoding pipeline.
#[derive(Clone, Copy, Debug, PartialEq, Eq, Structural)]
pub struct AgentHints {
    /// Bit pattern of the latency sensitivity: 0 = background/batch, 1 = interactive/real-time.
    pub latency_sensitivity: u32,
    /// Enable speculative prefill (prompt compression) for this request.
    pub speculative_prefill: bool,
    /// Scheduling priority (0-255). Higher = scheduled sooner.
    pub priority: u8,
}

impl Default for AgentHints {
    fn default() -> (h: AgentHints)
        ensures
            h == (AgentHints { latency_sensitivity: 0, speculative_prefill: false, priority: 0 }),
    {
        AgentHints { latency_sensitivity: 0, speculative_prefill: false, priority: 0 }
    }
}

/// What a header value says. The latency texts are kept in order, to be read as numbers.
#[derive(Debug)]
pub struct HeaderFields {
    pub latency: Vec<String>,
    pub prefill: bool,
    pub priority: u8,
}

/// What the parts of a header value say.
#[verifier::ext_equal]
pub struct FieldsView {
    pub latency: Seq<Seq<char>>,
    pub prefill: bool,
    pub priority: u8,
}

impl View for HeaderFields {
    type V = FieldsView;

    open spec fn view(&self) -> FieldsView {
        FieldsView {
            latency: self.latency@.map_values(|s: String| s@),
            prefill: self.prefill,
            priority: self.priority,
        }
    }
}

/// The value of the first `n` digits, or nothing once one is no digit or the value exceeds
/// a byte.
pub open spec fn byte_value(s: Seq<char>, n: nat) -> Option<nat>
    decreases n,
{
    if n == 0 {
        Some(0)
    } else {
        match byte_value(s, (n - 1) as nat) {
            None => None,
            Some(v) => {
                let c = s[n - 1];
                if '0' <= c && c <= '9' && v * 10 + (c as u32 - 48) <= 255 {
                    Some(v * 10 + (c as u32 - 48) as nat)
                } else {
                    None
                }
            },
        }
    }
}

/// A text read as a byte: digits, at least one, after an optional plus sign.
pub open spec fn parsed_byte(s: Seq<char>) -> Option<nat> {
    let digits = if s.len() > 0 && s[0] == '+' {
        s.subrange(1, s.len() as int)
    } else {
        s
    };
    if digits.len() == 0 {
        None
    } else {
        byte_value(digits, digits.len())
    }
}

/// The fields after one part `key=value` of a header value. Unknown keys change nothing.
pub open spec fn with_part(f: FieldsView, part: Seq<char>) -> FieldsView {
    let p = text::trimmed(part);
    let eq = text::place_of(p, '=', 0);
    if eq >= p.len() {
        f
    } else {
        let key = text::trimmed(p.subrange(0, eq));
        let val = text::trimmed(p.subrange(eq + 1, p.len() as int));
        if key == "latency"@ {
            FieldsView { latency: f.latency.push(val), prefill: f.prefill, priority: f.priority }
        } else if key == "prefill"@ {
            FieldsView {
                latency: f.latency,
                prefill: text::lowered(val) == "true"@,
                priority: f.priority,
            }
        } else if key == "priority"@ {
            FieldsView {
                latency: f.latency,
                prefill: f.prefill,
                priority: match parsed_byte(val) {
                    Some(v) => v as u8,
                    None => f.priority,
                },
            }
        } else {
            f
        }
    }
}

/// The fields after the parts of a header value, which semicolons separate, from `i` on.
pub open spec fn with_parts(f: FieldsView, value: Seq<char>, i: int) -> FieldsView
    decreases value.len() + 1 - i,
{
    if i > value.len() || i < 0 {
        f
    } else {
        let end = text::place_of(value, ';', i);
        let g = with_part(f, value.subrange(i, end));
        if i <= end < value.len() {
            with_parts(g, value, end + 1)
        } else {
            g
        }
    }
}

/// Nothing said yet.
pub open spec fn no_fields() -> FieldsView {
    FieldsView { latency: seq![], prefill: false, priority: 0 }
}

fn read_byte(s: &[char]) -> (r: Option<u8>)
    ensures
        match (r, parsed_byte(s@)) {
            (Some(v), Some(w)) => v == w,
            (None, None) => true,
            _ => false,
        },
{
    let from: usize = if s.len() > 0 && s[0] == '+' {
        1
    } else {
        0
    };
    let digits = part_of(s, from, s.len());
    assert(from == 0 ==> digits@ =~= s@);
    if digits.len() == 0 {
        return None;
    }
    let mut v: u32 = 0;
    let mut i: usize = 0;
    while i < digits.len()
        invariant
            i <= digits@.len(),
            v <= 255,
            digits@.len() > 0,
            parsed_byte(s@) == byte_value(digits@, digits@.len()),
            byte_value(digits@, i as nat) == Some(v as nat),
        decreases digits@.len() - i,
    {
        let c: char = digits[i];
        if c < '0' || c > '9' {
            proof {
                lemma_byte_stops(digits@, (i + 1) as nat, digits@.len());
            }
            return None;
        }
        let next: u32 = v * 10 + (c as u32 - 48);
        if next > 255 {
            proof {
                lemma_byte_stops(digits@, (i + 1) as nat, digits@.len());
            }
            return None;
        }
        v = next;
        i = i + 1;
    }
    Some(v as u8)
}

proof fn lemma_byte_stops(s: Seq<char>, n: nat, m: nat)
    requires
        n <= m,
        byte_value(s, n) is None,
    ensures
        byte_value(s, m) is None,
    decreases m,
{
    if n < m {
        lemma_byte_stops(s, n, (m - 1) as nat);
    }
}

impl HeaderFields {
    fn take_part(&mut self, part: &[char])
        ensures
            final(self)@ == with_part(old(self)@, part@),
    {
        let p = trim_chars(part);
        let eq: usize = find_char(p.as_slice(), '=', 0);
        if eq >= p.len() {
            return;
        }
        let key = trim_chars(part_of(p.as_slice(), 0, eq).as_slice());
        let val = trim_chars(part_of(p.as_slice(), eq + 1, p.len()).as_slice());
        let latency = chars_of("latency");
        let prefill = chars_of("prefill");
        let priority = chars_of("priority");
        if same_chars(key.as_slice(), latency.as_slice()) {
            self.latency.push(text_of(val.as_slice()));
            assert(self@ =~= with_part(old(self)@, part@));
        } else if same_chars(key.as_slice(), prefill.as_slice()) {
            let yes = chars_of("true");
            self.prefill = same_chars(lower_chars(val.as_slice()).as_slice(), yes.as_slice());
        } else if same_chars(key.as_slice(), priority.as_slice()) {
            if let Some(v) = read_byte(val.as_slice()) {
                self.priority = v;
            }
        }
    }

    /// Parse fields from a header value string.
    ///
    /// Format: `latency=0.8;prefill=true;priority=64`
    /// Unknown keys are ignored. Missing keys get defaults.
    pub fn parse(value: &str) -> (f: HeaderFields)
        ensures
            f@ == with_parts(no_fields(), value@, 0),
    {
        let v = chars_of(value);
        let mut f = HeaderFields { latency: Vec::new(), prefill: false, priority: 0 };
        assert(f@ =~= no_fields());
        let n: usize = v.len();
        let mut i: usize = 0;
        loop
            invariant
                i <= n == v@.len(),
                v@ == value@,
                with_parts(no_fields(), v@, 0) == with_parts(f@, v@, i as int),
            decreases n - i,
        {
            let end: usize = find_char(v.as_slice(), ';', i);
            let part = part_of(v.as_slice(), i, end);
            f.take_part(part.as_slice());
            if end >= n {
                return f;
            }
            i = end + 1;
        }
    }
}

/// The last number among texts that were read as numbers, in order.
pub fn last_parsed(parsed: &Vec<Option<u32>>) -> (r: Option<u32>)
    ensures
        match r {
            Some(bits) => exists|i: int|
                0 <= i < parsed@.len() && #[trigger] parsed@[i] == Some(bits) && forall|j: int|
                    i < j < parsed@.len() ==> #[trigger] parsed@[j] is None,
            None => forall|j: int| 0 <= j < parsed@.len() ==> #[trigger] parsed@[j] is None,
        },
{
    let mut n: usize = parsed.len();
    while n > 0
        invariant
            n <= parsed@.len(),
            forall|j: int| n <= j < parsed@.len() ==> #[trigger] parsed@[j] is None,
        decreases n,
    {
        n = n - 1;
        if let Some(bits) = parsed[n] {
            assert(parsed@[n as int] == Some(bits));
            return Some(bits);
        }
    }
    None
}

impl AgentHints {
    /// Create hints for an interactive (user-facing) request.
    pub fn interactive() -> (h: AgentHints)
        ensures
            h == (AgentHints {
                latency_sensitivity: ONE_BITS,
                speculative_prefill: true,
                priority: 128,
            }),
    {
        AgentHints { latency_sensitivity: ONE_BITS, speculative_prefill: true, priority: 128 }
    }

    /// Create hints for a background (batch/tool-chain) request.
    pub fn background() -> (h: AgentHints)
        ensures
            h == (AgentHints { latency_sensitivity: 0, speculative_prefill: false, priority: 0 }),
    {
        AgentHints { latency_sensitivity: 0, speculative_prefill: false, priority: 0 }
    }

    /// Hints from header fields, given the last of their latency texts that reads as a number.
    ///
    /// The latency is clamped to 0..=1.
    pub fn from_header(fields: &HeaderFields, latency: Option<u32>) -> (h: AgentHints)
        ensures
            h.speculative_prefill == fields.prefill,
            h.priority == fields.priority,
            h.latency_sensitivity == (match latency {
                Some(bits) => clamped_unit(bits),
                None => 0,
            }),
    {
        let latency_sensitivity: u32 = match latency {
            Some(bits) => clamp_unit(bits),
            None => 0,
        };
        AgentHints {
            latency_sensitivity,
            speculative_prefill: fields.prefill,
            priority: fields.priority,
        }
    }
}

/// A number clamped to 0..=1, as bit patterns; what is not a number stays what it is.
pub open spec fn clamped_unit(bits: u32) -> u32 {
    if bits % 0x8000_0000 > INFINITY_BITS {
        bits
    } else if bits > 0x8000_0000 {
        0
    } else if ONE_BITS < bits < 0x8000_0000 {
        ONE_BITS
    } else {
        bits
    }
}

fn clamp_unit(bits: u32) -> (r: u32)
    ensures
        r == clamped_unit(bits),
{
    if bits % 0x8000_0000 > INFINITY_BITS {
        bits
    } else if bits > 0x8000_0000 {
        0
    } else if bits > ONE_BITS && bits < 0x8000_0000 {
        ONE_BITS
    } else {
        bits
    }
}

/// Request body for `/v1/tokenize` endpoint.
#[derive(Debug)]
pub struct TokenizeRequest {
    /// The text to tokenize.
    pub text: String,
    /// If true, return token strings in addition to IDs.
    pub include_tokens: bool,
}

/// Response from `/v1/tokenize` endpoint.
#[derive(Debug)]
pub struct TokenizeResponse {
    /// Token IDs produced by the tokenizer.
    pub token_ids: Vec<usize>,
    /// Token strings (only present if `include_tokens` was true).
    pub tokens: Vec<String>,
    /// Total number of tokens.
    pub count: usize,
}

/// Request body for `/v1/detokenize` endpoint.
#[derive(Debug)]
pub struct DetokenizeRequest {
    /// Token IDs to decode back to text.
    pub token_ids: Vec<usize>,
}

/// Response from `/v1/detokenize` endpoint.
#[derive(Debug)]
pub struct DetokenizeResponse {
    /// Decoded text string.
    pub text: String,
}

/// The marker is found at its first place, whatever the case of its letters, and is not missed.
pub proof fn law_marker_is_the_first(d: Seq<char>, i: int)
    requires
        0 <= i,
    ensures
        find_marker(d, i) matches Some(k) ==> i <= k && k + 7 <= d.len() && text::lowered(
            d.subrange(k, k + 7),
        ) == "tokens:"@ && (forall|j: int|
            i <= j < k ==> text::lowered(#[trigger] d.subrange(j, j + 7)) != "tokens:"@),
        find_marker(d, i) is None ==> forall|j: int|
            i <= j && j + 7 <= d.len() ==> text::lowered(#[trigger] d.subrange(j, j + 7))
                != "tokens:"@,
    decreases d.len() - i,
{
    reveal_strlit("tokens:");
    assert("tokens:"@ =~= marker());
    if i + 7 <= d.len() && text::lowered(d.subrange(i, i + 7)) != marker() {
        law_marker_is_the_first(d, i + 1);
    }
}

/// A list goes on as long as there are digits and commas.
pub proof fn law_list_ends_at_the_first_other(d: Seq<char>, i: int)
    requires
        0 <= i <= d.len(),
    ensures
        i <= list_end(d, i) <= d.len(),
        forall|k: int|
            i <= k < list_end(d, i) ==> text::is_digit(#[trigger] d[k]) || d[k] == ',',
        list_end(d, i) < d.len() ==> !text::is_digit(d[list_end(d, i)]) && d[list_end(d, i)] != ',',
    decreases d.len() - i,
{
    if i < d.len() && in_list(d[i]) {
        law_list_ends_at_the_first_other(d, i + 1);
    }
}

/// The first `n` numbers in decimal, with commas between them.
pub open spec fn listed(v: Seq<usize>, n: nat) -> Seq<char>
    decreases n,
{
    if n == 0 {
        seq![]
    } else if n == 1 {
        text::decimal(v[0] as nat)
    } else {
        listed(v, (n - 1) as nat) + seq![','] + text::decimal(v[n - 1] as nat)
    }
}

proof fn lemma_scan_beginning(s: Seq<char>, t: Seq<char>, n: nat)
    requires
        n <= s.len(),
        n <= t.len(),
        s.take(n as int) == t.take(n as int),
    ensures
        scanned(s, n) == scanned(t, n),
    decreases n,
{
    if n > 0 {
        assert(s.take(n - 1) =~= s.take(n as int).take(n - 1));
        assert(t.take(n - 1) =~= t.take(n as int).take(n - 1));
        lemma_scan_beginning(s, t, (n - 1) as nat);
        assert(s[n - 1] == s.take(n as int)[n - 1]);
        assert(t[n - 1] == t.take(n as int)[n - 1]);
    }
}

proof fn lemma_scan_number(p: Seq<char>, done: Seq<usize>, d: nat)
    requires
        d <= usize::MAX,
        scanned(p, p.len()) == Some((done, None::<nat>)),
    ensures
        scanned(p + text::decimal(d), (p + text::decimal(d)).len()) == Some((done, Some(d))),
    decreases d,
{
    let s = p + text::decimal(d);
    if d < 10 {
        assert(s.take(p.len() as int) =~= p.take(p.len() as int));
        lemma_scan_beginning(s, p, p.len());
        assert(s.len() == p.len() + 1);
        assert(s[p.len() as int] == text::digit_char(d));
    } else {
        let t = p + text::decimal(d / 10);
        lemma_scan_number(p, done, d / 10);
        assert(s =~= t.push(text::digit_char(d % 10)));
        assert(s.take(t.len() as int) =~= t.take(t.len() as int));
        lemma_scan_beginning(s, t, t.len());
        assert(s.len() == t.len() + 1);
        assert(s[t.len() as int] == text::digit_char(d % 10));
    }
}

/// A list of numbers is read back as the numbers that were written.
pub proof fn law_listed_numbers_read_back(v: Seq<usize>, n: nat)
    requires
        0 < n <= v.len(),
    ensures
        number_list(listed(v, n)) == Some(v.take(n as int)),
    decreases n,
{
    let s = listed(v, n);
    if n == 1 {
        let none = Seq::<char>::empty();
        assert(scanned(none, none.len()) == Some((Seq::<usize>::empty(), None::<nat>)));
        lemma_scan_number(none, seq![], v[0] as nat);
        assert(none + s =~= s);
        assert(v.take(1) =~= seq![].push(v[0]));
    } else {
        let before = listed(v, (n - 1) as nat);
        law_listed_numbers_read_back(v, (n - 1) as nat);
        let p = before + seq![','];
        assert(p.take(before.len() as int) =~= before.take(before.len() as int));
        lemma_scan_beginning(p, before, before.len());
        assert(p[before.len() as int] == ',');
        assert(p.len() == before.len() + 1);
        let done = v.take(n - 1);
        assert(scanned(p, p.len()) matches Some((d, b)) && d == done && b is None);
        assert(scanned(p, p.len()) == Some((done, None::<nat>)));
        lemma_scan_number(p, done, v[n - 1] as nat);
        assert(v.take(n as int) =~= done.push(v[n - 1]));
    }
}

/// Tokens written behind the marker are the tokens that a description holds, whatever stands
/// around them, as long as no marker comes before and no further digit or comma behind.
pub proof fn law_described_tokens_read_back(before: Seq<char>, v: Seq<usize>, after: Seq<char>)
    requires
        v.len() > 0,
        find_marker(before + marker() + listed(v, v.len()) + after, 0) == Some(before.len() as int),
        after.len() > 0 ==> !in_list(after[0]),
    ensures
        described_tokens(before + marker() + listed(v, v.len()) + after) == Some(v),
{
    let list = listed(v, v.len());
    let d = before + marker() + list + after;
    let start = before.len() as int + 7;
    lemma_listed_chars(v, v.len());
    law_list_ends_at_the_first_other(d, start);
    let end = list_end(d, start);
    assert forall|k: int| 0 <= k < list.len() implies in_list(#[trigger] d[start + k]) by {
        assert(d[start + k] == list[k]);
    }
    if end < start + list.len() {
        assert(in_list(d[start + (end - start)]));
    }
    if end > start + list.len() {
        assert(d[start + list.len() as int] == after[0]);
    }
    assert(d.subrange(start, end) =~= list);
    law_listed_numbers_read_back(v, v.len());
    assert(v.take(v.len() as int) =~= v);
}

proof fn lemma_listed_chars(v: Seq<usize>, n: nat)
    requires
        n <= v.len(),
    ensures
        forall|k: int| 0 <= k < listed(v, n).len() ==> in_list(#[trigger] listed(v, n)[k]),
    decreases n,
{
    if n > 0 {
        text::law_decimal_stands_for_its_number(v[n - 1] as nat);
        lemma_listed_chars(v, (n - 1) as nat);
        let last = text::decimal(v[n - 1] as nat);
        assert forall|k: int| 0 <= k < listed(v, n).len() implies in_list(
            #[trigger] listed(v, n)[k],
        ) by {
            let rest = listed(v, (n - 1) as nat);
            if n == 1 {
                assert(text::is_digit(last[k]));
            } else if k < rest.len() {
                assert(in_list(rest[k]));
            } else if k > rest.len() {
                assert(text::is_digit(last[k - rest.len() - 1]));
            }
        }
    }
}

/// A list with a number missing is no list: an empty one, one that ends in a comma, or one with
/// two commas next to each other or at its start.
pub proof fn law_numbers_may_not_be_missing(s: Seq<char>, k: int)
    requires
        s.len() == 0 || s.last() == ',' || (0 <= k < s.len() && s[k] == ',' && (k == 0 || s[k - 1]
            == ',')),
    ensures
        number_list(s) is None,
{
    if 0 <= k < s.len() && s[k] == ',' && (k == 0 || s[k - 1] == ',') {
        if k > 0 {
            assert(scanned(s, k as nat) matches Some((d, b)) ==> b is None);
        }
        assert(scanned(s, (k + 1) as nat) is None);
        lemma_scan_stops(s, (k + 1) as nat, s.len());
    }
}

proof fn lemma_byte_value(s: Seq<char>, n: nat)
    requires
        n <= s.len(),
        forall|i: int| 0 <= i < n ==> text::is_digit(#[trigger] s[i]),
    ensures
        text::value_of(s.take(n as int)) >= 0,
        byte_value(s, n) == (if text::value_of(s.take(n as int)) <= 255 {
            Some(text::value_of(s.take(n as int)) as nat)
        } else {
            None
        }),
    decreases n,
{
    if n > 0 {
        lemma_byte_value(s, (n - 1) as nat);
        assert(s.take(n as int).drop_last() =~= s.take(n - 1));
        assert(text::is_digit(s[n - 1]));
    }
}

/// Digits are read as the number they stand for if it fits in a byte, with or without a plus sign
/// before them. Nothing else is read as one.
pub proof fn law_bytes_are_read_from_digits(s: Seq<char>, k: int)
    ensures
        s.len() > 0 && (forall|i: int| 0 <= i < s.len() ==> text::is_digit(#[trigger] s[i])) ==> {
            &&& parsed_byte(s) == (if text::value_of(s) <= 255 {
                Some(text::value_of(s) as nat)
            } else {
                None
            })
            &&& parsed_byte(seq!['+'] + s) == parsed_byte(s)
        },
        s.len() == 0 ==> parsed_byte(s) is None && parsed_byte(seq!['+'] + s) is None,
        0 <= k < s.len() && !text::is_digit(s[k]) && !(k == 0 && s[k] == '+') ==> parsed_byte(s)
            is None,
{
    let plus = seq!['+'] + s;
    assert(plus.subrange(1, plus.len() as int) =~= s);
    if s.len() > 0 && (forall|i: int| 0 <= i < s.len() ==> text::is_digit(#[trigger] s[i])) {
        lemma_byte_value(s, s.len());
        assert(s.take(s.len() as int) =~= s);
        assert(text::is_digit(s[0]));
    }
    if 0 <= k < s.len() && !text::is_digit(s[k]) && !(k == 0 && s[k] == '+') {
        if s[0] == '+' {
            let rest = s.subrange(1, s.len() as int);
            assert(rest[k - 1] == s[k]);
            assert(byte_value(rest, k as nat) is None);
            lemma_byte_stops(rest, k as nat, rest.len());
        } else {
            assert(byte_value(s, (k + 1) as nat) is None);
            lemma_byte_stops(s, (k + 1) as nat, s.len());
        }
    }
}

/// A text that neither begins nor ends with white space, and is not empty.
pub open spec fn tight(s: Seq<char>) -> bool {
    s.len() > 0 && !text::is_space(s[0]) && !text::is_space(s.last())
}

/// A part `key=value` sets the field that its key names, and no other: the latency text is kept
/// behind the earlier ones, the prefill flag is set by the word true in any case, and the priority
/// by a byte. Other keys and other values set nothing.
pub proof fn law_parts_set_their_field(f: FieldsView, key: Seq<char>, val: Seq<char>)
    requires
        tight(key),
        tight(val),
        !key.contains('='),
    ensures
        ({
            let g = with_part(f, key + seq!['='] + val);
            &&& key != "latency"@ ==> g.latency == f.latency
            &&& key != "prefill"@ ==> g.prefill == f.prefill
            &&& key != "priority"@ ==> g.priority == f.priority
            &&& key == "latency"@ ==> g.latency == f.latency.push(val)
            &&& key == "prefill"@ ==> g.prefill == (text::lowered(val) == "true"@)
            &&& key == "priority"@ ==> g.priority == (match parsed_byte(val) {
                Some(v) => v as u8,
                None => f.priority,
            })
        }),
{
    let part = key + seq!['='] + val;
    reveal_strlit("latency");
    reveal_strlit("prefill");
    reveal_strlit("priority");
    assert(part[0] == key[0] && part.last() == val.last());
    assert(text::trimmed(part) == part);
    assert(part[key.len() as int] == '=');
    text::law_place_is_the_first(part, '=', 0);
    let eq = text::place_of(part, '=', 0);
    if eq < key.len() {
        assert(key[eq] == part[eq]);
    }
    assert(eq == key.len());
    assert(part.subrange(0, eq) =~= key);
    assert(part.subrange(eq + 1, part.len() as int) =~= val);
    assert("latency"@[0] != "prefill"@[0]);
    assert("prefill"@.len() != "priority"@.len());
}

/// A part without an equals sign sets nothing.
pub proof fn law_parts_without_a_value_set_nothing(f: FieldsView, part: Seq<char>)
    requires
        tight(part),
        !part.contains('='),
    ensures
        with_part(f, part) == f,
{
    text::law_place_is_the_first(part, '=', 0);
}

proof fn lemma_place_behind(p: Seq<char>, b: Seq<char>, c: char, i: int)
    requires
        0 <= i <= b.len(),
    ensures
        text::place_of(p + b, c, p.len() + i) == p.len() + text::place_of(b, c, i),
    decreases b.len() - i,
{
    if i < b.len() {
        assert((p + b)[p.len() + i] == b[i]);
        if b[i] != c {
            lemma_place_behind(p, b, c, i + 1);
        }
    }
}

proof fn lemma_parts_behind(f: FieldsView, p: Seq<char>, b: Seq<char>, i: int)
    requires
        0 <= i <= b.len(),
    ensures
        with_parts(f, p + b, p.len() + i) == with_parts(f, b, i),
    decreases b.len() - i,
{
    lemma_place_behind(p, b, ';', i);
    text::law_place_is_the_first(b, ';', i);
    let end = text::place_of(b, ';', i);
    assert((p + b).subrange(p.len() + i, p.len() + end) =~= b.subrange(i, end));
    let g = with_part(f, b.subrange(i, end));
    if end < b.len() {
        lemma_parts_behind(g, p, b, end + 1);
    }
}

/// The parts between semicolons are taken one after another: the first, then the rest.
pub proof fn law_parts_are_taken_in_order(f: FieldsView, first: Seq<char>, rest: Seq<char>)
    requires
        !first.contains(';'),
    ensures
        with_parts(f, first + seq![';'] + rest, 0) == with_parts(with_part(f, first), rest, 0),
        with_parts(f, first, 0) == with_part(f, first),
{
    let p = first + seq![';'];
    let s = first + seq![';'] + rest;
    assert(s =~= p + rest);
    assert(s[first.len() as int] == ';');
    text::law_place_is_the_first(s, ';', 0);
    let end = text::place_of(s, ';', 0);
    if end < first.len() {
        assert(first[end] == s[end]);
    }
    assert(end == first.len());
    assert(s.subrange(0, end) =~= first);
    lemma_parts_behind(with_part(f, first), p, rest, 0);
    text::law_place_is_the_first(first, ';', 0);
    assert(text::place_of(first, ';', 0) == first.len());
    assert(first.subrange(0, first.len() as int) =~= first);
}

/// A clamped number lies between zero and one, and is the nearest there: a number between them is
/// kept, one below becomes zero, one above becomes one.
pub proof fn law_clamping_to_the_unit(bits: u32)
    ensures
        float_bits::is_number(bits) ==> !float_bits::below(clamped_unit(bits), 0)
            && !float_bits::below(0x3F80_0000, clamped_unit(bits)),
        !float_bits::below(bits, 0) && !float_bits::below(0x3F80_0000, bits) ==> clamped_unit(bits)
            == bits,
        float_bits::below(bits, 0) ==> clamped_unit(bits) == 0,
        float_bits::below(0x3F80_0000, bits) ==> clamped_unit(bits) == 0x3F80_0000,
{
}

} // verus!
