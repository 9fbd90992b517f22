//! The shared secret: its strength rule, checked once at start-up, and the
//! check that admits a connection whose first record is the secret.
use vstd::prelude::*;
use vstd::string::StringSliceAdditionalSpecFns;
use crate::codec::{copy_prefix, record, record_of, bytes_equal, is_line_end, NEWLINE, CARRIAGE_RETURN};

verus! {

pub const MIN_SECRET_CHARS: usize = 32;

/// Fancy-regex source of the weak-run rule: a character and four or more
/// copies of it.
pub const RUN_PATTERN: &'static str = "(.)\\1{4,}";

#[verifier::external_type_specification]
#[verifier::external_body]
pub struct ExRegexError(fancy_regex::Error);

pub open spec fn run_pattern() -> Seq<char> {
    seq!['(', '.', ')', '\\', '1', '{', '4', ',', '}']
}

/// Five equal characters start at `i`; `.` in the pattern never matches a
/// newline, so a run of newlines does not count.
pub open spec fn run_at(s: Seq<char>, i: int) -> bool {
    &&& 0 <= i
    &&& i + 5 <= s.len()
    &&& s[i] != '\n'
    &&& forall|k: int| 1 <= k < 5 ==> #[trigger] s[i + k] == s[i]
}

pub open spec fn has_long_run(s: Seq<char>) -> bool {
    exists|i: int| run_at(s, i)
}

pub open spec fn strong_secret(s: Seq<char>) -> bool {
    s.len() >= MIN_SECRET_CHARS && !has_long_run(s)
}

/// Admission rule: the record carried by the line is the secret, byte for byte.
pub open spec fn presents_secret(secret: Seq<u8>, line: Seq<u8>) -> bool {
    record_of(line) == secret
}

#[derive(Debug, Clone, Copy, PartialEq, Eq, Structural)]
pub enum SecretError {
    /// Fewer than the minimum number of characters.
    TooShort,
    /// Five or more identical characters in a row.
    RepeatedRun,
    /// The pattern matcher gave up, so the secret could not be judged.
    Unchecked,
}

/// Whether the run matcher gives up on `text` (it stops at a fixed backtrack
/// limit, so this depends on the text alone).
pub uninterp spec fn run_match_fails(text: Seq<char>) -> bool;

/// Relies on fancy_regex::Regex::new and Regex::is_match: compiled from
/// `(.)\1{4,}`, a successful match tells whether `text` holds a run of five
/// equal characters other than a newline; it fails only when the match runs
/// past the default backtrack limit, which the text alone decides.
#[verifier::external_body]
fn pattern_finds_run(pattern: &str, text: &str) -> (r: Result<bool, fancy_regex::Error>)
    requires
        pattern@ == run_pattern(),
    ensures
        r matches Ok(found) ==> found == has_long_run(text@),
        r is Err <==> run_match_fails(text@),
{
    match fancy_regex::Regex::new(pattern) {
        Ok(re) => re.is_match(text),
        Err(e) => Err(e),
    }
}

/// Whether `s` has at least the minimum number of characters.
pub fn long_enough(s: &str) -> (r: bool)
    ensures
        r == (s@.len() >= MIN_SECRET_CHARS),
{
    let mut n: usize = 0;
    for c in it: s.chars()
        invariant
            n == it.index(),
            n < MIN_SECRET_CHARS,
            it.seq() == s@,
    {
        if n + 1 >= MIN_SECRET_CHARS {
            return true;
        }
        n = n + 1;
    }
    false
}

pub struct Secret {
    bytes: Vec<u8>,
    chars: Ghost<Seq<char>>,
}

impl View for Secret {
    type V = Seq<u8>;

    closed spec fn view(&self) -> Seq<u8> {
        self.bytes@
    }
}

impl Secret {
    /// The secret's characters.
    pub closed spec fn text(&self) -> Seq<char> {
        self.chars@
    }

    /// Judges `text` given what the run matcher reported (`None`: it failed).
    pub fn judge(text: &str, run_found: Option<bool>) -> (r: Result<Secret, SecretError>)
        requires
            run_found matches Some(f) ==> f == has_long_run(text@),
        ensures
            text@.len() < MIN_SECRET_CHARS ==> r == Err::<Secret, SecretError>(
                SecretError::TooShort,
            ),
            text@.len() >= MIN_SECRET_CHARS ==> match run_found {
                Some(true) => r == Err::<Secret, SecretError>(SecretError::RepeatedRun),
                None => r == Err::<Secret, SecretError>(SecretError::Unchecked),
                Some(false) => r matches Ok(s) && s.text() == text@ && s@ == text.spec_bytes(),
            },
    {
        if !long_enough(text) {
            return Err(SecretError::TooShort);
        }
        match run_found {
            Some(true) => Err(SecretError::RepeatedRun),
            None => Err(SecretError::Unchecked),
            Some(false) => {
                let b = text.as_bytes();
                Ok(Secret { bytes: copy_prefix(b, b.len()), chars: Ghost(text@) })
            },
        }
    }

    /// Accepts `text` as the broker's secret when it is strong.
    pub fn new(text: &str) -> (r: Result<Secret, SecretError>)
        ensures
            r matches Ok(s) ==> strong_secret(text@) && s.text() == text@ && s@
                == text.spec_bytes(),
            strong_secret(text@) && !run_match_fails(text@) ==> (r matches Ok(s) && s.text()
                == text@ && s@ == text.spec_bytes()),
            text@.len() < MIN_SECRET_CHARS ==> r == Err::<Secret, SecretError>(
                SecretError::TooShort,
            ),
            text@.len() >= MIN_SECRET_CHARS ==> (r == Err::<Secret, SecretError>(
                SecretError::Unchecked,
            ) <==> run_match_fails(text@)),
            text@.len() >= MIN_SECRET_CHARS && has_long_run(text@) && !run_match_fails(text@)
                ==> r == Err::<Secret, SecretError>(SecretError::RepeatedRun),
            r == Err::<Secret, SecretError>(SecretError::RepeatedRun) ==> has_long_run(text@),
    {
        if !long_enough(text) {
            return Err(SecretError::TooShort);
        }
        proof {
            reveal_strlit("(.)\\1{4,}");
        }
        assert(RUN_PATTERN@ =~= run_pattern());
        let found = match pattern_finds_run(RUN_PATTERN, text) {
            Ok(f) => Some(f),
            Err(_) => None,
        };
        Secret::judge(text, found)
    }

    /// Authentication: whether the first line of a connection presents the secret.
    pub fn admits(&self, line: &[u8]) -> (r: bool)
        ensures
            r == presents_secret(self@, line@),
    {
        let rec = record(line);
        bytes_equal(rec.as_slice(), self.bytes.as_slice())
    }
}

proof fn lemma_record_of_terminated(s: Seq<u8>, ending: Seq<u8>)
    requires
        s.len() > 0 ==> !is_line_end(s.last()),
        forall|i: int| 0 <= i < ending.len() ==> is_line_end(#[trigger] ending[i]),
    ensures
        record_of(s + ending) == s,
    decreases ending.len(),
{
    if ending.len() == 0 {
        assert(s + ending =~= s);
    } else {
        assert((s + ending).drop_last() =~= s + ending.drop_last());
        lemma_record_of_terminated(s, ending.drop_last());
    }
}

/// A connection is admitted exactly when its first record is the secret:
/// the secret followed by LF or CR LF is admitted, and every line whose record
/// differs from the secret is rejected. (A secret that itself ends in CR or LF
/// loses that byte to the line's terminator, so it is left out.)
pub proof fn lemma_admits_exactly_the_secret(secret: Seq<u8>, line: Seq<u8>)
    requires
        secret.len() > 0 ==> !is_line_end(secret.last()),
    ensures
        presents_secret(secret, secret + seq![NEWLINE]),
        presents_secret(secret, secret + seq![CARRIAGE_RETURN, NEWLINE]),
        presents_secret(secret, line) <==> record_of(line) == secret,
{
    lemma_record_of_terminated(secret, seq![NEWLINE]);
    lemma_record_of_terminated(secret, seq![CARRIAGE_RETURN, NEWLINE]);
}

} // verus!
