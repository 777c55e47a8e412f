//! Per-repository settings, and the parsing of the look-back span that limits
//! which closed issues are counted.
use vstd::prelude::*;
use vstd::std_specs::iter::IteratorSpec;

verus! {

broadcast use vstd::string::axiom_spec_iter, vstd::string::next_postcondition;

/// What the program reads from its configuration.
pub struct Settings {
    pub github_token: String,
    pub repositories: Vec<RepositorySettings>,
}

/// One repository to watch.
pub struct RepositorySettings {
    pub user: String,
    pub name: String,
    pub labels: Option<Vec<String>>,
    pub since: Option<Since>,
}

/// A look-back span such as "2 weeks".
#[derive(Debug, Clone, Copy, PartialEq, Eq, Structural)]
pub struct Since {
    pub quantity: u64,
    pub unit: SinceSpan,
}

/// The unit of a look-back span.
#[derive(Debug, Clone, Copy, PartialEq, Eq, Structural)]
pub enum SinceSpan {
    Day,
    Week,
}

/// Why a look-back span was refused.
#[derive(Debug, Clone, Copy, PartialEq, Eq, Structural)]
pub enum SinceParseError {
    /// The text is not exactly two words; `found` is how many it has.
    WordCount { found: usize },
    /// The first word is not a decimal number that fits in 64 bits.
    InvalidQuantity,
    /// The second word is not a recognized interval.
    UnknownInterval,
}

/// An instant, as whole seconds since the Unix epoch (UTC).
#[derive(Debug, Clone, Copy, PartialEq, Eq, Structural)]
pub struct UnixTime {
    pub seconds: i64,
}

/// Seconds in a day.
pub const SECONDS_PER_DAY: i128 = 86400;

/// Seconds in a week.
pub const SECONDS_PER_WEEK: i128 = 604800;

/// The Unicode `White_Space` property, which `str::split_whitespace` splits on.
pub open spec fn white_space(c: char) -> bool {
    let u = c as u32;
    (0x9 <= u <= 0xd) || u == 0x20 || u == 0x85 || u == 0xa0 || u == 0x1680 || (0x2000 <= u
        <= 0x200a) || u == 0x2028 || u == 0x2029 || u == 0x202f || u == 0x205f || u == 0x3000
}

/// The maximal runs of characters that are not white space, in order.
pub open spec fn words_of(s: Seq<char>) -> Seq<Seq<char>>
    decreases s.len(),
{
    if s.len() == 0 {
        Seq::empty()
    } else {
        let rest = words_of(s.drop_last());
        let c = s.last();
        if white_space(c) {
            rest
        } else if s.len() >= 2 && !white_space(s[s.len() - 2]) && rest.len() > 0 {
            rest.drop_last().push(rest.last().push(c))
        } else {
            rest.push(seq![c])
        }
    }
}

/// A list of words seen through their characters.
pub open spec fn words_view(words: Vec<Vec<char>>) -> Seq<Seq<char>> {
    words@.map_values(|w: Vec<char>| w@)
}

pub open spec fn is_digit(c: char) -> bool {
    0x30 <= (c as u32) <= 0x39
}

/// The value of a run of decimal digits.
pub open spec fn digits_value(d: Seq<char>) -> int
    decreases d.len(),
{
    if d.len() == 0 {
        0
    } else {
        digits_value(d.drop_last()) * 10 + ((d.last() as u32) - 0x30)
    }
}

/// The number a word spells in decimal, with an optional leading `+`, when it
/// fits in 64 bits; as `u64`'s `FromStr` reads it.
pub open spec fn quantity_of(w: Seq<char>) -> Option<u64> {
    let d = unsigned_part(w);
    if d.len() > 0 && all_digits(d) && digits_value(d) <= u64::MAX {
        Some(digits_value(d) as u64)
    } else {
        None
    }
}

/// A word without its leading `+`, if it has one.
pub open spec fn unsigned_part(w: Seq<char>) -> Seq<char> {
    if w.len() > 0 && w[0] == '+' {
        w.drop_first()
    } else {
        w
    }
}

pub open spec fn all_digits(d: Seq<char>) -> bool {
    forall|i: int| 0 <= i < d.len() ==> #[trigger] is_digit(d[i])
}

/// What `char::to_lowercase` yields for a character.
pub uninterp spec fn lower_of(c: char) -> Seq<char>;

/// A word with each character replaced by its lowercase mapping.
pub open spec fn lowered(w: Seq<char>) -> Seq<char>
    decreases w.len(),
{
    if w.len() == 0 {
        Seq::empty()
    } else {
        lowered(w.drop_last()) + lower_of(w.last())
    }
}

/// The interval that an already lowercased word names.
pub open spec fn span_named(l: Seq<char>) -> Option<SinceSpan> {
    if l == seq!['d', 'a', 'y'] || l == seq!['d', 'a', 'y', 's'] {
        Some(SinceSpan::Day)
    } else if l == seq!['w', 'e', 'e', 'k'] || l == seq!['w', 'e', 'e', 'k', 's'] {
        Some(SinceSpan::Week)
    } else {
        None
    }
}

/// The interval that a word names, in any letter case.
pub open spec fn span_of(w: Seq<char>) -> Result<SinceSpan, SinceParseError> {
    match span_named(lowered(w)) {
        Some(u) => Ok(u),
        None => Err(SinceParseError::UnknownInterval),
    }
}

/// The look-back span that a text gives: a number, then an interval.
pub open spec fn since_of(s: Seq<char>) -> Result<Since, SinceParseError> {
    let w = words_of(s);
    if w.len() != 2 {
        Err(SinceParseError::WordCount { found: w.len() as usize })
    } else {
        match quantity_of(w[0]) {
            None => Err(SinceParseError::InvalidQuantity),
            Some(q) => match span_of(w[1]) {
                Err(e) => Err(e),
                Ok(u) => Ok(Since { quantity: q, unit: u }),
            },
        }
    }
}

/// The characters of `s`, in order.
pub fn chars_of(s: &str) -> (r: Vec<char>)
    ensures
        r@ == s@,
{
    let mut it = s.chars();
    let mut out: Vec<char> = Vec::new();
    loop
        invariant
            out@ + it.remaining() == s@,
            it.decrease() is Some,
        ensures
            out@ == s@,
        decreases it.decrease()->0,
    {
        match it.next() {
            Some(c) => {
                out.push(c);
                assert(out@ + it.remaining() =~= s@);
            },
            None => {
                assert(out@ =~= s@);
                break;
            },
        }
    }
    out
}

/// Whether `c` is white space.
pub fn is_white_space(c: char) -> (r: bool)
    ensures
        r == white_space(c),
{
    let u = c as u32;
    (0x9 <= u && u <= 0xd) || u == 0x20 || u == 0x85 || u == 0xa0 || u == 0x1680 || (0x2000 <= u
        && u <= 0x200a) || u == 0x2028 || u == 0x2029 || u == 0x202f || u == 0x205f || u == 0x3000
}

/// Splits `s` into its words: the maximal runs of characters that are not
/// white space.
pub fn split_words(s: &Vec<char>) -> (r: Vec<Vec<char>>)
    ensures
        words_view(r) == words_of(s@),
{
    let mut words: Vec<Vec<char>> = Vec::new();
    let mut cur: Vec<char> = Vec::new();
    let mut i: usize = 0;
    assert(s@.subrange(0, 0) =~= Seq::<char>::empty());
    while i < s.len()
        invariant
            i <= s@.len(),
            words_of(s@.subrange(0, i as int)) == words_view(words) + (if cur@.len() > 0 {
                seq![cur@]
            } else {
                Seq::empty()
            }),
            cur@.len() > 0 <==> (i > 0 && !white_space(s@[i - 1])),
        decreases s@.len() - i,
    {
        let c = s[i];
        let ghost prefix = s@.subrange(0, i as int + 1);
        assert(prefix.drop_last() =~= s@.subrange(0, i as int));
        if is_white_space(c) {
            if cur.len() > 0 {
                let ghost done = words_view(words);
                let ghost word = cur@;
                words.push(cur);
                cur = Vec::new();
                assert(words_view(words) =~= done.push(word));
                assert(words_view(words) + Seq::<Seq<char>>::empty() =~= done + seq![word]);
            }
        } else {
            let ghost done = words_view(words);
            let ghost word = cur@;
            cur.push(c);
            proof {
                if word.len() > 0 {
                    assert((done + seq![word]).drop_last() =~= done);
                    assert((done + seq![word]).last() == word);
                    assert(done.push(word.push(c)) =~= done + seq![cur@]);
                } else {
                    assert(cur@ =~= seq![c]);
                    assert(done + Seq::<Seq<char>>::empty() =~= done);
                    assert(done.push(seq![c]) =~= done + seq![cur@]);
                }
            }
        }
        i = i + 1;
    }
    assert(s@.subrange(0, s@.len() as int) =~= s@);
    if cur.len() > 0 {
        let ghost done = words_view(words);
        let ghost word = cur@;
        words.push(cur);
        assert(words_view(words) =~= done + seq![word]);
    } else {
        assert(words_view(words) + Seq::<Seq<char>>::empty() =~= words_view(words));
    }
    words
}

proof fn lemma_digits_value_nonneg(d: Seq<char>)
    requires
        forall|i: int| 0 <= i < d.len() ==> #[trigger] is_digit(d[i]),
    ensures
        digits_value(d) >= 0,
    decreases d.len(),
{
    if d.len() > 0 {
        assert(forall|i: int| 0 <= i < d.len() - 1 ==> d.drop_last()[i] == d[i]);
        assert(forall|i: int| 0 <= i < d.len() - 1 ==> #[trigger] is_digit(d.drop_last()[i]) == is_digit(d[i]));
        assert(is_digit(d[d.len() - 1]));
        lemma_digits_value_nonneg(d.drop_last());
    }
}

/// Reads a word as a decimal number, as `u64`'s `FromStr` does: an optional
/// leading `+`, then at least one digit, with a value that fits in 64 bits.
pub fn parse_quantity(w: &Vec<char>) -> (r: Option<u64>)
    ensures
        r == quantity_of(w@),
{
    let start: usize = if w.len() > 0 && w[0] == '+' {
        1
    } else {
        0
    };
    let ghost d = unsigned_part(w@);
    assert(d =~= w@.subrange(start as int, w@.len() as int));
    if start >= w.len() {
        return None;
    }
    let mut acc: u128 = 0;
    let mut over = false;
    let mut i: usize = start;
    assert(d.subrange(0, 0) =~= Seq::<char>::empty());
    while i < w.len()
        invariant
            start <= i <= w@.len(),
            d =~= w@.subrange(start as int, w@.len() as int),
            d == unsigned_part(w@),
            forall|k: int| 0 <= k < i - start ==> #[trigger] is_digit(d[k]),
            !over ==> acc == digits_value(d.subrange(0, i - start)) && acc <= u64::MAX,
            over ==> digits_value(d.subrange(0, i - start)) > u64::MAX,
        decreases w@.len() - i,
    {
        let c = w[i];
        let ghost k = i - start;
        if !(0x30 <= c as u32 && c as u32 <= 0x39) {
            assert(d[k] == w@[i as int]);
            assert(!is_digit(d[k]));
            return None;
        }
        let ghost sub = d.subrange(0, k + 1);
        assert(sub.drop_last() =~= d.subrange(0, k));
        proof {
            lemma_digits_value_nonneg(d.subrange(0, k));
        }
        if !over {
            let next = acc * 10 + (c as u32 - 0x30) as u128;
            if next > u64::MAX as u128 {
                over = true;
            } else {
                acc = next;
            }
        }
        i = i + 1;
    }
    assert(d.subrange(0, w@.len() - start) =~= d);
    if over {
        None
    } else {
        Some(acc as u64)
    }
}

/// Relies on `char::to_lowercase`: the characters of `c`'s lowercase mapping,
/// which depend on `c` alone.
#[verifier::external_body]
fn lowercase_char(c: char) -> (r: Vec<char>)
    ensures
        r@ == lower_of(c),
{
    c.to_lowercase().collect()
}

/// Lowercases a word character by character.
pub fn lowercase_word(w: &Vec<char>) -> (r: Vec<char>)
    ensures
        r@ == lowered(w@),
{
    let mut out: Vec<char> = Vec::new();
    let mut i: usize = 0;
    assert(w@.subrange(0, 0) =~= Seq::<char>::empty());
    while i < w.len()
        invariant
            i <= w@.len(),
            out@ == lowered(w@.subrange(0, i as int)),
        decreases w@.len() - i,
    {
        let mut low = lowercase_char(w[i]);
        assert(w@.subrange(0, i as int + 1).drop_last() =~= w@.subrange(0, i as int));
        out.append(&mut low);
        i = i + 1;
    }
    assert(w@.subrange(0, w@.len() as int) =~= w@);
    out
}

/// Whether `w` holds exactly the characters of `lit`.
fn same_chars(w: &Vec<char>, lit: &str) -> (r: bool)
    ensures
        r == (w@ == lit@),
{
    let l = chars_of(lit);
    if w.len() != l.len() {
        return false;
    }
    let mut i: usize = 0;
    while i < w.len()
        invariant
            i <= w@.len(),
            w@.len() == l@.len(),
            l@ == lit@,
            forall|k: int| 0 <= k < i ==> w@[k] == l@[k],
        decreases w@.len() - i,
    {
        if w[i] != l[i] {
            assert(w@[i as int] != l@[i as int]);
            return false;
        }
        i = i + 1;
    }
    assert(w@ =~= l@);
    true
}

impl SinceSpan {
    /// The interval that an already lowercased word names, if any.
    pub fn from_lowercase(l: &Vec<char>) -> (r: Option<SinceSpan>)
        ensures
            r == span_named(l@),
    {
        proof {
            reveal_strlit("day");
            reveal_strlit("days");
            reveal_strlit("week");
            reveal_strlit("weeks");
            assert("day"@ =~= seq!['d', 'a', 'y']);
            assert("days"@ =~= seq!['d', 'a', 'y', 's']);
            assert("week"@ =~= seq!['w', 'e', 'e', 'k']);
            assert("weeks"@ =~= seq!['w', 'e', 'e', 'k', 's']);
        }
        if same_chars(l, "day") || same_chars(l, "days") {
            assert(l@ == seq!['d', 'a', 'y'] || l@ == seq!['d', 'a', 'y', 's']);
            Some(SinceSpan::Day)
        } else if same_chars(l, "week") || same_chars(l, "weeks") {
            assert(l@ == seq!['w', 'e', 'e', 'k'] || l@ == seq!['w', 'e', 'e', 'k', 's']);
            Some(SinceSpan::Week)
        } else {
            assert(l@ != seq!['d', 'a', 'y'] && l@ != seq!['d', 'a', 'y', 's']);
            assert(l@ != seq!['w', 'e', 'e', 'k'] && l@ != seq!['w', 'e', 'e', 'k', 's']);
            None
        }
    }

    /// The interval that a word names, in any letter case: "day" or "days",
    /// "week" or "weeks".
    pub fn parse_word(w: &Vec<char>) -> (r: Result<SinceSpan, SinceParseError>)
        ensures
            r == span_of(w@),
    {
        let l = lowercase_word(w);
        match SinceSpan::from_lowercase(&l) {
            Some(u) => Ok(u),
            None => Err(SinceParseError::UnknownInterval),
        }
    }
}

impl std::str::FromStr for SinceSpan {
    type Err = SinceParseError;

    fn from_str(s: &str) -> Result<SinceSpan, SinceParseError> {
        SinceSpan::parse_word(&chars_of(s))
    }
}

impl Since {
    /// Reads a look-back span: exactly two words, a decimal number and an
    /// interval.
    pub fn parse(s: &str) -> (r: Result<Since, SinceParseError>)
        ensures
            r == since_of(s@),
    {
        let chars = chars_of(s);
        let words = split_words(&chars);
        if words.len() != 2 {
            return Err(SinceParseError::WordCount { found: words.len() });
        }
        let quantity = match parse_quantity(&words[0]) {
            Some(q) => q,
            None => {
                return Err(SinceParseError::InvalidQuantity);
            },
        };
        match SinceSpan::parse_word(&words[1]) {
            Ok(unit) => Ok(Since { quantity, unit }),
            Err(e) => Err(e),
        }
    }

    /// The length of the span in seconds.
    pub open spec fn span_seconds(self) -> int {
        match self.unit {
            SinceSpan::Day => self.quantity * SECONDS_PER_DAY,
            SinceSpan::Week => self.quantity * SECONDS_PER_WEEK,
        }
    }
}

impl std::str::FromStr for Since {
    type Err = SinceParseError;

    fn from_str(s: &str) -> Result<Since, SinceParseError> {
        Since::parse(s)
    }
}

/// Relies on `chrono::Utc::now` and `DateTime::timestamp`: the current time
/// in whole seconds since the Unix epoch. Nothing is promised of its value.
#[verifier::external_body]
fn now_utc() -> (t: UnixTime) {
    UnixTime { seconds: chrono::Utc::now().timestamp() }
}

impl RepositorySettings {
    /// The earliest close date of the issues to count, with the time now at
    /// `now`: `now` minus the look-back span. There is none without a span,
    /// nor when the span reaches back past the earliest representable instant.
    pub open spec fn cutoff(&self, now: UnixTime) -> Option<UnixTime> {
        match self.since {
            None => None,
            Some(s) => if now.seconds - s.span_seconds() >= i64::MIN {
                Some(UnixTime { seconds: (now.seconds - s.span_seconds()) as i64 })
            } else {
                None
            },
        }
    }

    /// The close-date cut-off at the given time.
    pub fn closed_since_date_at(&self, now: UnixTime) -> (r: Option<UnixTime>)
        ensures
            r == self.cutoff(now),
    {
        match self.since {
            None => None,
            Some(s) => {
                let per: i128 = match s.unit {
                    SinceSpan::Day => SECONDS_PER_DAY,
                    SinceSpan::Week => SECONDS_PER_WEEK,
                };
                assert(s.quantity * per <= u64::MAX * SECONDS_PER_WEEK) by (nonlinear_arith)
                    requires
                        s.quantity <= u64::MAX,
                        0 <= per <= SECONDS_PER_WEEK,
                ;
                let span = s.quantity as i128 * per;
                let earliest = now.seconds as i128 - span;
                if earliest >= i64::MIN as i128 {
                    Some(UnixTime { seconds: earliest as i64 })
                } else {
                    None
                }
            },
        }
    }

    /// The close-date cut-off now: the cut-off at whatever the clock reads.
    pub fn closed_since_date(&self) -> (r: Option<UnixTime>)
        ensures
            exists|now: UnixTime| r == self.cutoff(now),
            self.since is None ==> r is None,
    {
        let now = now_utc();
        self.closed_since_date_at(now)
    }
}

} // verus!
