//! Glob and regular-expression matching, and the cache of compiled regular
//! expressions shared by every evaluation.

use vstd::prelude::*;

verus! {

#[verifier::external_type_specification]
#[verifier::external_body]
pub struct ExRegex(regex::Regex);

#[verifier::external_type_specification]
#[verifier::external_body]
pub struct ExGlobPattern(glob::Pattern);

/// Whether `regex::Regex::new` accepts `pattern`.
pub uninterp spec fn regex_compiles(pattern: Seq<char>) -> bool;

/// Whether the expression compiled from `pattern` matches somewhere in `text`.
pub uninterp spec fn regex_finds(pattern: Seq<char>, text: Seq<char>) -> bool;

/// Whether `glob::Pattern::new` accepts `pattern`.
pub uninterp spec fn glob_compiles(pattern: Seq<char>) -> bool;

/// Whether the glob compiled from `pattern` matches the whole of `text`.
pub uninterp spec fn glob_accepts(pattern: Seq<char>, text: Seq<char>) -> bool;

/// A regular-expression leaf matches `text`: the pattern compiles and finds a match.
pub open spec fn regex_matches(pattern: Seq<char>, text: Seq<char>) -> bool {
    regex_compiles(pattern) && regex_finds(pattern, text)
}

/// A glob leaf matches `text`: the pattern compiles and accepts the text.
pub open spec fn glob_matches(pattern: Seq<char>, text: Seq<char>) -> bool {
    glob_compiles(pattern) && glob_accepts(pattern, text)
}

/// Some element of `texts` is matched by the regular expression `pattern`.
pub open spec fn regex_matches_some(pattern: Seq<char>, texts: Seq<Seq<char>>) -> bool {
    exists|i: int| 0 <= i < texts.len() && regex_matches(pattern, #[trigger] texts[i])
}

/// Some element of `texts` is matched by the glob `pattern`.
pub open spec fn glob_matches_some(pattern: Seq<char>, texts: Seq<Seq<char>>) -> bool {
    exists|i: int| 0 <= i < texts.len() && glob_matches(pattern, #[trigger] texts[i])
}

/// A compiled regular expression together with the text it was compiled from.
/// Only `compile_regex` builds one, so `re` is always the compilation of `source`.
pub struct CompiledRegex {
    source: String,
    re: regex::Regex,
}

impl View for CompiledRegex {
    type V = Seq<char>;

    closed spec fn view(&self) -> Seq<char> {
        self.source@
    }
}

/// A compiled glob together with the text it was compiled from.
/// Only `compile_glob` builds one, so `pat` is always the compilation of `source`.
pub struct CompiledGlob {
    source: String,
    pat: glob::Pattern,
}

impl View for CompiledGlob {
    type V = Seq<char>;

    closed spec fn view(&self) -> Seq<char> {
        self.source@
    }
}

/// Relies on `regex::Regex::new`: it succeeds exactly on well-formed patterns.
#[verifier::external_body]
fn compile_regex(pattern: &str) -> (r: Option<CompiledRegex>)
    ensures
        r.is_some() == regex_compiles(pattern@),
        r matches Some(c) ==> c@ == pattern@,
{
    match regex::Regex::new(pattern) {
        Ok(re) => Some(CompiledRegex { source: pattern.to_string(), re }),
        Err(_) => None,
    }
}

/// Relies on `regex::Regex::is_match`: whether the expression matches somewhere in `text`.
#[verifier::external_body]
fn regex_is_match(c: &CompiledRegex, text: &str) -> (r: bool)
    ensures
        r == regex_finds(c@, text@),
{
    c.re.is_match(text)
}

/// Relies on `glob::Pattern::new`: it succeeds exactly on well-formed globs.
#[verifier::external_body]
fn compile_glob(pattern: &str) -> (r: Option<CompiledGlob>)
    ensures
        r.is_some() == glob_compiles(pattern@),
        r matches Some(g) ==> g@ == pattern@,
{
    match glob::Pattern::new(pattern) {
        Ok(pat) => Some(CompiledGlob { source: pattern.to_string(), pat }),
        Err(_) => None,
    }
}

/// Relies on `glob::Pattern::matches`: whether the glob accepts `text` under the
/// default options (`*` also crosses `/`).
#[verifier::external_body]
fn glob_is_match(g: &CompiledGlob, text: &str) -> (r: bool)
    ensures
        r == glob_accepts(g@, text@),
{
    g.pat.matches(text)
}

/// Matches one text against a glob; a malformed glob matches nothing.
pub fn glob_match(pattern: &str, text: &str) -> (r: bool)
    ensures
        r == glob_matches(pattern@, text@),
{
    match compile_glob(pattern) {
        Some(g) => glob_is_match(&g, text),
        None => false,
    }
}

/// Matches a glob against each text in turn; true when one of them matches.
pub fn glob_match_some(pattern: &str, texts: &Vec<String>) -> (r: bool)
    ensures
        r == glob_matches_some(pattern@, texts.deep_view()),
{
    let g = match compile_glob(pattern) {
        Some(g) => g,
        None => {
            return false;
        },
    };
    let mut i: usize = 0;
    while i < texts.len()
        invariant
            i <= texts.len(),
            glob_compiles(pattern@),
            g@ == pattern@,
            forall|j: int| 0 <= j < i ==> !glob_accepts(pattern@, #[trigger] texts.deep_view()[j]),
        decreases texts.len() - i,
    {
        if glob_is_match(&g, texts[i].as_str()) {
            assert(glob_matches(pattern@, texts.deep_view()[i as int]));
            return true;
        }
        i += 1;
    }
    false
}

/// The observable state of a pattern cache: the patterns it has compiled so far,
/// and one warning for each of them that failed to compile, in order.
pub struct CacheView {
    pub seen: Set<Seq<char>>,
    pub warnings: Seq<Seq<char>>,
}

/// What one lookup of `pattern` does to the cache: a pattern not seen before is
/// compiled once and remembered; when compiling fails, one warning is recorded.
pub open spec fn cache_step(s: CacheView, pattern: Seq<char>) -> CacheView {
    if s.seen.contains(pattern) {
        s
    } else if regex_compiles(pattern) {
        CacheView { seen: s.seen.insert(pattern), warnings: s.warnings }
    } else {
        CacheView { seen: s.seen.insert(pattern), warnings: s.warnings.push(pattern) }
    }
}

struct CacheEntry {
    pattern: String,
    compiled: Option<CompiledRegex>,
}

/// Memo table from the text of a regular expression to its compiled form or to
/// the fact that it does not compile. Entries are never removed.
pub struct PatternCache {
    entries: Vec<CacheEntry>,
    warnings: Vec<String>,
}

impl View for PatternCache {
    type V = CacheView;

    closed spec fn view(&self) -> CacheView {
        CacheView {
            seen: Set::new(
                |p: Seq<char>|
                    exists|i: int| 0 <= i < self.entries.len() && #[trigger] self.entries@[i].pattern@ == p,
            ),
            warnings: self.warnings.deep_view(),
        }
    }
}

impl PatternCache {
    /// Entries are distinct, each holds the outcome of compiling its own
    /// pattern, and the warnings name exactly the failed entries, once each.
    pub closed spec fn wf(&self) -> bool {
        &&& forall|i: int, j: int|
            0 <= i < j < self.entries.len() ==> (#[trigger] self.entries@[i]).pattern@
                != (#[trigger] self.entries@[j]).pattern@
        &&& forall|i: int|
            0 <= i < self.entries.len() ==> (#[trigger] self.entries@[i]).compiled.is_some()
                == regex_compiles(self.entries@[i].pattern@)
        &&& forall|i: int|
            0 <= i < self.entries.len() ==> ((#[trigger] self.entries@[i]).compiled matches Some(c)
                ==> c@ == self.entries@[i].pattern@)
        &&& self.warnings.deep_view().no_duplicates()
        &&& forall|p: Seq<char>|
            #[trigger] self.warnings.deep_view().contains(p) <==> (self@.seen.contains(p)
                && !regex_compiles(p))
    }

    /// An empty cache.
    pub fn new() -> (r: PatternCache)
        ensures
            r.wf(),
            r@.seen.is_empty(),
            r@.warnings.len() == 0,
    {
        let r = PatternCache { entries: Vec::new(), warnings: Vec::new() };
        assert(r@.seen =~= Set::empty());
        r
    }

    /// The warnings recorded so far, one per pattern that failed to compile.
    pub fn warnings(&self) -> (r: &Vec<String>)
        ensures
            r.deep_view() == self@.warnings,
    {
        &self.warnings
    }

    /// Finds the entry for `pattern`, compiling and recording it on a miss.
    fn entry_for(&mut self, pattern: &str) -> (idx: usize)
        requires
            old(self).wf(),
        ensures
            final(self).wf(),
            final(self)@ == cache_step(old(self)@, pattern@),
            idx < final(self).entries.len(),
            final(self).entries@[idx as int].pattern@ == pattern@,
    {
        let mut i: usize = 0;
        while i < self.entries.len()
            invariant
                i <= self.entries.len(),
                *self == *old(self),
                self.wf(),
                forall|j: int| 0 <= j < i ==> (#[trigger] self.entries@[j]).pattern@ != pattern@,
            decreases self.entries.len() - i,
        {
            if self.entries[i].pattern.as_str().len() == pattern.len() && self.entries[i].pattern
                == pattern.to_owned() {
                assert(self@.seen.contains(pattern@));
                return i;
            }
            i += 1;
        }
        assert(!self@.seen.contains(pattern@));
        let ghost old_view = self@;
        let ghost old_entries = self.entries@;
        let ghost old_warnings = self.warnings.deep_view();
        let compiled = compile_regex(pattern);
        let failed = compiled.is_none();
        self.entries.push(CacheEntry { pattern: pattern.to_owned(), compiled });
        if failed {
            self.warnings.push(pattern.to_owned());
            assert(self.warnings.deep_view() =~= old_warnings.push(pattern@));
        } else {
            assert(self.warnings.deep_view() =~= old_warnings);
        }
        let idx = self.entries.len() - 1;
        assert forall|p: Seq<char>| #[trigger] self@.seen.contains(p) <==> old_view.seen.insert(pattern@).contains(p) by {
            if p == pattern@ {
                assert(self.entries@[idx as int].pattern@ == p);
            }
            if old_view.seen.contains(p) {
                let k = choose|k: int| 0 <= k < old_entries.len() && #[trigger] old_entries[k].pattern@ == p;
                assert(self.entries@[k].pattern@ == p);
            }
            if self@.seen.contains(p) && p != pattern@ {
                let k = choose|k: int| 0 <= k < self.entries.len() && #[trigger] self.entries@[k].pattern@ == p;
                assert(old_entries[k].pattern@ == p);
            }
        }
        assert(self@.seen =~= old_view.seen.insert(pattern@));
        assert(!old_warnings.contains(pattern@));
        assert forall|p: Seq<char>|
            #[trigger] self.warnings.deep_view().contains(p) <==> (self@.seen.contains(p)
                && !regex_compiles(p)) by {
            if p != pattern@ {
                let nw = self.warnings.deep_view();
                if old_warnings.contains(p) {
                    let k = choose|k: int| 0 <= k < old_warnings.len() && old_warnings[k] == p;
                    assert(nw[k] == p);
                }
                if nw.contains(p) {
                    let k = choose|k: int| 0 <= k < nw.len() && nw[k] == p;
                    assert(old_warnings[k] == p);
                }
            } else if failed {
                assert(self.warnings.deep_view().last() == p);
            }
        }
        idx
    }
    /// Matches one text against a regular expression, compiling the pattern at
    /// most once over the life of the cache; a malformed pattern matches nothing.
    pub fn regex_match(&mut self, pattern: &str, text: &str) -> (r: bool)
        requires
            old(self).wf(),
        ensures
            final(self).wf(),
            final(self)@ == cache_step(old(self)@, pattern@),
            r == regex_matches(pattern@, text@),
    {
        let idx = self.entry_for(pattern);
        match &self.entries[idx].compiled {
            Some(c) => regex_is_match(c, text),
            None => false,
        }
    }

    /// Matches a regular expression against each text in turn; true when one
    /// of them matches.
    pub fn regex_match_some(&mut self, pattern: &str, texts: &Vec<String>) -> (r: bool)
        requires
            old(self).wf(),
        ensures
            final(self).wf(),
            final(self)@ == cache_step(old(self)@, pattern@),
            r == regex_matches_some(pattern@, texts.deep_view()),
    {
        let idx = self.entry_for(pattern);
        let compiled = &self.entries[idx].compiled;
        match compiled {
            Some(c) => {
                let mut i: usize = 0;
                while i < texts.len()
                    invariant
                        i <= texts.len(),
                        regex_compiles(pattern@),
                        c@ == pattern@,
                        self.wf(),
                        self@ == cache_step(old(self)@, pattern@),
                        forall|j: int| 0 <= j < i ==> !regex_finds(pattern@, #[trigger] texts.deep_view()[j]),
                    decreases texts.len() - i,
                {
                    if regex_is_match(c, texts[i].as_str()) {
                        assert(regex_matches(pattern@, texts.deep_view()[i as int]));
                        return true;
                    }
                    i += 1;
                }
                false
            },
            None => false,
        }
    }
}

/// Looking a malformed pattern up twice, starting from a cache that has not
/// seen it, records exactly one warning, and the pattern matches no text.
pub proof fn lemma_bad_pattern_warned_once(s: CacheView, pattern: Seq<char>, text: Seq<char>)
    requires
        !regex_compiles(pattern),
        !s.seen.contains(pattern),
    ensures
        cache_step(cache_step(s, pattern), pattern).warnings == s.warnings.push(pattern),
        cache_step(cache_step(s, pattern), pattern).seen == s.seen.insert(pattern),
        !regex_matches(pattern, text),
{
}

/// Once a pattern has been seen, further lookups leave the cache unchanged.
pub proof fn lemma_seen_pattern_stable(s: CacheView, pattern: Seq<char>)
    ensures
        cache_step(s, pattern).seen.contains(pattern),
        cache_step(cache_step(s, pattern), pattern) == cache_step(s, pattern),
{
}

/// `b` extends `a`: no pattern is forgotten and no warning withdrawn.
pub open spec fn cache_grows(a: CacheView, b: CacheView) -> bool {
    &&& a.seen.subset_of(b.seen)
    &&& a.warnings.len() <= b.warnings.len()
    &&& b.warnings.subrange(0, a.warnings.len() as int) == a.warnings
}

pub proof fn lemma_cache_grows_refl(a: CacheView)
    ensures
        cache_grows(a, a),
{
    assert(a.warnings.subrange(0, a.warnings.len() as int) =~= a.warnings);
}

pub proof fn lemma_cache_step_grows(a: CacheView, p: Seq<char>)
    ensures
        cache_grows(a, cache_step(a, p)),
{
    lemma_cache_grows_refl(a);
    if !a.seen.contains(p) && !regex_compiles(p) {
        assert(a.warnings.push(p).subrange(0, a.warnings.len() as int) =~= a.warnings);
    }
}

pub proof fn lemma_cache_grows_trans(a: CacheView, b: CacheView, c: CacheView)
    requires
        cache_grows(a, b),
        cache_grows(b, c),
    ensures
        cache_grows(a, c),
{
    assert(c.warnings.subrange(0, a.warnings.len() as int) =~= c.warnings.subrange(0, b.warnings.len() as int).subrange(0, a.warnings.len() as int));
}

} // verus!
