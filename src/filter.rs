//! The line filter: a line is left out of a table when it is empty or when
//! any of the caller's regular expressions matches somewhere in it.
use vstd::prelude::*;

verus! {

/// The regex crate's compiled expression, opaque here.
#[verifier::external_type_specification]
#[verifier::external_body]
pub struct ExRegex(regex::Regex);

/// The regex crate's compile error, opaque here.
#[verifier::external_type_specification]
#[verifier::external_body]
pub struct ExRegexError(regex::Error);

/// Whether `pattern` is accepted by the regex crate's default builder.
pub uninterp spec fn regex_compiles(pattern: Seq<char>) -> bool;

/// Whether the regular expression `pattern` matches anywhere in `haystack`.
pub uninterp spec fn regex_finds(pattern: Seq<char>, haystack: Seq<char>) -> bool;

/// A compiled filter pattern, kept together with the text it was compiled
/// from. Only `compile` builds one, so the two always agree.
pub struct LinePattern {
    source: String,
    re: regex::Regex,
}

impl LinePattern {
    /// The text this pattern was compiled from.
    pub closed spec fn pattern(&self) -> Seq<char> {
        self.source@
    }

    /// Relies on regex::Regex::new: it fails exactly on the patterns that it
    /// rejects, which depend on the text alone; the text is kept beside the
    /// compiled expression.
    #[verifier::external_body]
    pub(crate) fn compile(pattern: &str) -> (r: Result<LinePattern, regex::Error>)
        ensures
            r is Ok <==> regex_compiles(pattern@),
            r matches Ok(p) ==> p.pattern() == pattern@,
    {
        match regex::Regex::new(pattern) {
            Ok(re) => Ok(LinePattern { source: pattern.to_string(), re }),
            Err(e) => Err(e),
        }
    }

    /// Relies on regex::Regex::is_match: true exactly when the expression,
    /// compiled from `self.pattern()`, matches somewhere in `line`.
    #[verifier::external_body]
    pub(crate) fn finds(&self, line: &str) -> (r: bool)
        ensures
            r == regex_finds(self.pattern(), line@),
    {
        self.re.is_match(line)
    }
}

/// The texts of a sequence of compiled patterns.
pub open spec fn patterns_of(ps: Seq<LinePattern>) -> Seq<Seq<char>> {
    ps.map_values(|p: LinePattern| p.pattern())
}

/// Some pattern of `pats` matches somewhere in `line`.
pub open spec fn any_finds(pats: Seq<Seq<char>>, line: Seq<char>) -> bool {
    exists|j: int| 0 <= j < pats.len() && regex_finds(#[trigger] pats[j], line)
}

/// The filter policy: an empty line, or one that some pattern matches, is
/// left out.
pub open spec fn skipped(pats: Seq<Seq<char>>, line: Seq<char>) -> bool {
    line.len() == 0 || any_finds(pats, line)
}

/// The first pattern, by index, that does not compile, if any.
pub open spec fn first_bad_pattern(filters: Seq<Seq<char>>, j: int) -> bool {
    &&& 0 <= j < filters.len()
    &&& !regex_compiles(filters[j])
    &&& forall|i: int| 0 <= i < j ==> regex_compiles(#[trigger] filters[i])
}

/// Compiles each filter in order. Fails with the index of the first one
/// that does not compile.
pub fn compile_filters(filters: &Vec<String>) -> (r: Result<Vec<LinePattern>, usize>)
    ensures
        r matches Ok(ps) ==> patterns_of(ps@) == crate::text::views(filters@),
        r matches Ok(_) <==> forall|i: int| 0 <= i < filters@.len() ==> regex_compiles(#[trigger] filters@[i]@),
        r matches Err(j) ==> first_bad_pattern(crate::text::views(filters@), j as int),
{
    let mut ps: Vec<LinePattern> = Vec::new();
    let mut i: usize = 0;
    while i < filters.len()
        invariant
            i <= filters@.len(),
            patterns_of(ps@) =~= crate::text::views(filters@).subrange(0, i as int),
            forall|k: int| 0 <= k < i ==> regex_compiles(#[trigger] filters@[k]@),
        decreases filters@.len() - i,
    {
        match LinePattern::compile(filters[i].as_str()) {
            Ok(p) => {
                let ghost old_ps = ps@;
                ps.push(p);
                assert(patterns_of(ps@) =~= patterns_of(old_ps).push(filters@[i as int]@));
                assert(crate::text::views(filters@).subrange(0, i + 1) =~= crate::text::views(
                    filters@,
                ).subrange(0, i as int).push(filters@[i as int]@));
            },
            Err(_) => {
                return Err(i);
            },
        }
        i = i + 1;
    }
    assert(crate::text::views(filters@).subrange(0, i as int) =~= crate::text::views(filters@));
    Ok(ps)
}

/// Whether `line` is left out under the filter policy. Patterns are tried in
/// order, and the first match decides.
pub fn skip_line(patterns: &Vec<LinePattern>, line: &str) -> (r: bool)
    ensures
        r == skipped(patterns_of(patterns@), line@),
{
    if line.is_empty() {
        return true;
    }
    let mut j: usize = 0;
    while j < patterns.len()
        invariant
            j <= patterns@.len(),
            forall|k: int| 0 <= k < j ==> !regex_finds(#[trigger] patterns_of(patterns@)[k], line@),
        decreases patterns@.len() - j,
    {
        if patterns[j].finds(line) {
            assert(patterns_of(patterns@)[j as int] == patterns@[j as int].pattern());
            return true;
        }
        j = j + 1;
    }
    false
}

} // verus!
