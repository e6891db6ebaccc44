//! Compiled filter rules and the flags that restrict where they apply.

use vstd::prelude::*;

use super::glob::glob_ok;
use super::text::chars_of;

verus! {

/// The modifiers a rule carries: which side it applies to, whether it
/// perishes on deletion, and whether it is about extended attributes.
#[derive(Debug, Clone, Copy, Default, Hash, PartialEq, Eq, Structural)]
pub struct RuleFlags {
    pub sender: bool,
    pub receiver: bool,
    pub perishable: bool,
    pub xattr: bool,
}

/// The flags a modifier string sets: `s`, `r`, `p` and `x` each set one,
/// other characters set none.
pub open spec fn flags_from_mods(m: Seq<char>) -> RuleFlags {
    RuleFlags {
        sender: m.contains('s'),
        receiver: m.contains('r'),
        perishable: m.contains('p'),
        xattr: m.contains('x'),
    }
}

/// Whether a rule with `flags` takes part in a check for deletion
/// (`for_delete`) or for transfer, of a path or of an extended attribute.
/// A sender-only rule takes no part in deletion, a receiver-only rule none
/// in transfer, and attribute rules only in attribute checks.
pub open spec fn flags_apply(flags: RuleFlags, for_delete: bool, xattr: bool) -> bool {
    &&& flags.xattr == xattr
    &&& for_delete ==> !(flags.sender && !flags.receiver)
    &&& !for_delete ==> !(flags.receiver && !flags.sender)
}

pub open spec fn flags_union(a: RuleFlags, b: RuleFlags) -> RuleFlags {
    RuleFlags {
        sender: a.sender || b.sender,
        receiver: a.receiver || b.receiver,
        perishable: a.perishable || b.perishable,
        xattr: a.xattr || b.xattr,
    }
}

pub open spec fn no_flags() -> RuleFlags {
    RuleFlags { sender: false, receiver: false, perishable: false, xattr: false }
}

impl RuleFlags {
    pub fn none() -> (r: Self)
        ensures
            r == no_flags(),
    {
        RuleFlags { sender: false, receiver: false, perishable: false, xattr: false }
    }

    /// The flags set by the modifier characters `mods`.
    pub fn from_mods(mods: &str) -> (r: Self)
        ensures
            r == flags_from_mods(mods@),
    {
        let m = chars_of(mods);
        Self::from_mod_chars(&m)
    }

    /// The flags set by the modifier characters `m`.
    pub fn from_mod_chars(m: &[char]) -> (r: Self)
        ensures
            r == flags_from_mods(m@),
    {
        let mut flags = Self::none();
        let mut i: usize = 0;
        while i < m.len()
            invariant
                i <= m@.len(),
                flags == flags_from_mods(m@.take(i as int)),
            decreases m@.len() - i,
        {
            let ch = m[i];
            let ghost before = m@.take(i as int);
            proof {
                assert(m@.take(i + 1) =~= before.push(ch));
                assert forall|c: char| #[trigger] before.push(ch).contains(c) <==> (before.contains(c)
                    || c == ch) by {
                    if before.push(ch).contains(c) && c != ch {
                        let k = choose|k: int| 0 <= k < before.len() + 1 && before.push(ch)[k] == c;
                        assert(before[k] == c);
                    }
                    if before.contains(c) {
                        let k = choose|k: int| 0 <= k < before.len() && before[k] == c;
                        assert(before.push(ch)[k] == c);
                    }
                    if c == ch {
                        assert(before.push(ch)[before.len() as int] == c);
                    }
                }
            }
            if ch == 's' {
                flags.sender = true;
            } else if ch == 'r' {
                flags.receiver = true;
            } else if ch == 'p' {
                flags.perishable = true;
            } else if ch == 'x' {
                flags.xattr = true;
            }
            i = i + 1;
        }
        assert(m@.take(m@.len() as int) =~= m@);
        flags
    }

    /// Whether a rule with these flags takes part in the given check.
    pub fn applies(&self, for_delete: bool, xattr: bool) -> (r: bool)
        ensures
            r == flags_apply(*self, for_delete, xattr),
    {
        if self.xattr != xattr {
            return false;
        }
        if for_delete {
            if self.sender && !self.receiver {
                return false;
            }
        } else if self.receiver && !self.sender {
            return false;
        }
        true
    }

    /// The flags set in either.
    pub fn union(&self, other: &Self) -> (r: Self)
        ensures
            r == flags_union(*self, *other),
    {
        RuleFlags {
            sender: self.sender || other.sender,
            receiver: self.receiver || other.receiver,
            perishable: self.perishable || other.perishable,
            xattr: self.xattr || other.xattr,
        }
    }
}

/// Joining flags is commutative, associative and idempotent, and joining
/// no flags changes nothing.
pub proof fn lemma_flags_union_laws(a: RuleFlags, b: RuleFlags, c: RuleFlags)
    ensures
        flags_union(a, b) == flags_union(b, a),
        flags_union(flags_union(a, b), c) == flags_union(a, flags_union(b, c)),
        flags_union(a, a) == a,
        flags_union(a, no_flags()) == a,
{
}

/// A rule with no side modifier takes part in both transfer and deletion
/// checks of its kind (path or attribute), and in no check of the other kind.
pub proof fn lemma_unsided_flags_apply(f: RuleFlags, for_delete: bool, xattr: bool)
    requires
        !f.sender,
        !f.receiver,
    ensures
        flags_apply(f, for_delete, xattr) == (f.xattr == xattr),
{
}

/// A per-directory merge file: the rules it holds are read from `file` in
/// each directory (or only at the root) as the tree is walked.
#[derive(Debug, Clone, Hash, PartialEq, Eq)]
pub struct PerDir {
    pub file: String,
    pub anchored: bool,
    pub root_only: bool,
    pub inherit: bool,
    pub cvs: bool,
    pub word_split: bool,
    pub sign: Option<char>,
    pub flags: RuleFlags,
}

/// A pattern rule: the glob it was compiled to, the pattern it came from,
/// and how it applies.
#[derive(Debug)]
pub struct RuleData {
    /// The globset pattern the rule's pattern was translated to; it builds.
    pub(crate) glob: String,
    pub(crate) invert: bool,
    pub(crate) flags: RuleFlags,
    pub(crate) source: Option<String>,
    pub(crate) dir_only: bool,
    pub(crate) has_slash: bool,
    pub(crate) pattern: String,
}

impl Clone for RuleData {
    fn clone(&self) -> (r: Self)
        ensures
            r == *self,
    {
        proof {
            use_type_invariant(self);
        }
        let source = match &self.source {
            Some(s) => Some(s.clone()),
            None => None,
        };
        RuleData {
            glob: self.glob.clone(),
            invert: self.invert,
            flags: self.flags,
            source,
            dir_only: self.dir_only,
            has_slash: self.has_slash,
            pattern: self.pattern.clone(),
        }
    }
}

impl RuleData {
    /// The glob of every rule builds.
    #[verifier::type_invariant]
    pub closed spec fn glob_valid(self) -> bool {
        glob_ok(self.glob@)
    }

    pub closed spec fn glob_spec(self) -> Seq<char> {
        self.glob@
    }

    pub closed spec fn pattern_spec(self) -> Seq<char> {
        self.pattern@
    }

    pub closed spec fn invert_spec(self) -> bool {
        self.invert
    }

    pub closed spec fn flags_spec(self) -> RuleFlags {
        self.flags
    }

    pub closed spec fn dir_only_spec(self) -> bool {
        self.dir_only
    }

    pub closed spec fn has_slash_spec(self) -> bool {
        self.has_slash
    }

    pub closed spec fn source_spec(self) -> Option<Seq<char>> {
        match self.source {
            Some(s) => Some(s@),
            None => None,
        }
    }

    /// A rule for the glob `glob`, compiled from `pattern`.
    pub fn new(
        glob: String,
        invert: bool,
        flags: RuleFlags,
        source: Option<String>,
        dir_only: bool,
        has_slash: bool,
        pattern: String,
    ) -> (r: Self)
        requires
            glob_ok(glob@),
        ensures
            r.glob_spec() == glob@,
            r.invert_spec() == invert,
            r.flags_spec() == flags,
            r.source_spec() == match source {
                Some(s) => Some(s@),
                None => None::<Seq<char>>,
            },
            r.dir_only_spec() == dir_only,
            r.has_slash_spec() == has_slash,
            r.pattern_spec() == pattern@,
    {
        RuleData { glob, invert, flags, source, dir_only, has_slash, pattern }
    }

    pub fn flags(&self) -> (r: RuleFlags)
        ensures
            r == self.flags_spec(),
    {
        self.flags
    }

    /// The glob this rule was compiled to; it builds.
    pub fn glob_str(&self) -> (r: &str)
        ensures
            r@ == self.glob_spec(),
            glob_ok(r@),
    {
        proof {
            use_type_invariant(self);
        }
        self.glob.as_str()
    }

    /// The pattern this rule was compiled from.
    pub fn pattern_str(&self) -> (r: &str)
        ensures
            r@ == self.pattern_spec(),
    {
        self.pattern.as_str()
    }

    pub fn invert(&self) -> (r: bool)
        ensures
            r == self.invert_spec(),
    {
        self.invert
    }

    pub fn dir_only(&self) -> (r: bool)
        ensures
            r == self.dir_only_spec(),
    {
        self.dir_only
    }

    pub fn has_slash(&self) -> (r: bool)
        ensures
            r == self.has_slash_spec(),
    {
        self.has_slash
    }

    /// The file the rule was read from, if any.
    pub fn source_str(&self) -> (r: Option<&str>)
        ensures
            match r {
                Some(s) => self.source_spec() == Some(s@),
                None => self.source_spec() is None,
            },
    {
        match &self.source {
            Some(s) => Some(s.as_str()),
            None => None,
        }
    }

    /// This rule with `extra` joined to its flags.
    pub fn with_flags_joined(self, extra: RuleFlags) -> (r: Self)
        ensures
            r.glob_spec() == self.glob_spec(),
            r.invert_spec() == self.invert_spec(),
            r.flags_spec() == flags_union(self.flags_spec(), extra),
            r.source_spec() == self.source_spec(),
            r.dir_only_spec() == self.dir_only_spec(),
            r.has_slash_spec() == self.has_slash_spec(),
            r.pattern_spec() == self.pattern_spec(),
    {
        proof {
            use_type_invariant(&self);
        }
        let flags = self.flags.union(&extra);
        let RuleData { glob, invert, flags: _, source, dir_only, has_slash, pattern } = self;
        assert(glob_ok(glob@));
        RuleData { glob, invert, flags, source, dir_only, has_slash, pattern }
    }
}

/// What a pattern rule holds, as plain values.
pub struct DataV {
    pub glob: Seq<char>,
    pub invert: bool,
    pub flags: RuleFlags,
    pub source: Option<Seq<char>>,
    pub dir_only: bool,
    pub has_slash: bool,
    pub pattern: Seq<char>,
}

impl View for RuleData {
    type V = DataV;

    open spec fn view(&self) -> DataV {
        DataV {
            glob: self.glob_spec(),
            invert: self.invert_spec(),
            flags: self.flags_spec(),
            source: self.source_spec(),
            dir_only: self.dir_only_spec(),
            has_slash: self.has_slash_spec(),
            pattern: self.pattern_spec(),
        }
    }
}

/// What a per-directory merge description holds, as plain values.
pub struct PerDirV {
    pub file: Seq<char>,
    pub anchored: bool,
    pub root_only: bool,
    pub inherit: bool,
    pub cvs: bool,
    pub word_split: bool,
    pub sign: Option<char>,
    pub flags: RuleFlags,
}

impl View for PerDir {
    type V = PerDirV;

    open spec fn view(&self) -> PerDirV {
        PerDirV {
            file: self.file@,
            anchored: self.anchored,
            root_only: self.root_only,
            inherit: self.inherit,
            cvs: self.cvs,
            word_split: self.word_split,
            sign: self.sign,
            flags: self.flags,
        }
    }
}

/// A rule as plain values.
pub enum RuleV {
    Include(DataV),
    Exclude(DataV),
    Protect(DataV),
    ImpliedDir(DataV),
    Clear,
    DirMerge(PerDirV),
    Existing,
    NoExisting,
    PruneEmptyDirs,
    NoPruneEmptyDirs,
}

impl View for Rule {
    type V = RuleV;

    open spec fn view(&self) -> RuleV {
        match self {
            Rule::Include(d) => RuleV::Include(d@),
            Rule::Exclude(d) => RuleV::Exclude(d@),
            Rule::Protect(d) => RuleV::Protect(d@),
            Rule::ImpliedDir(d) => RuleV::ImpliedDir(d@),
            Rule::Clear => RuleV::Clear,
            Rule::DirMerge(p) => RuleV::DirMerge(p@),
            Rule::Existing => RuleV::Existing,
            Rule::NoExisting => RuleV::NoExisting,
            Rule::PruneEmptyDirs => RuleV::PruneEmptyDirs,
            Rule::NoPruneEmptyDirs => RuleV::NoPruneEmptyDirs,
        }
    }
}

/// The views of a sequence of rules.
pub open spec fn rules_view(rs: Seq<Rule>) -> Seq<RuleV> {
    rs.map_values(|r: Rule| r@)
}

/// A parsed filter rule.
#[derive(Debug, Clone)]
pub enum Rule {
    Include(RuleData),
    Exclude(RuleData),
    Protect(RuleData),
    /// A parent directory that an included path implies.
    ImpliedDir(RuleData),
    Clear,
    DirMerge(PerDir),
    Existing,
    NoExisting,
    PruneEmptyDirs,
    NoPruneEmptyDirs,
}

/// What a check of a path decided: whether it is included, and whether a
/// walk should descend into it.
#[derive(Debug, Clone, Copy, Default, PartialEq, Eq, Structural)]
pub struct MatchResult {
    pub included: bool,
    pub descend: bool,
}

/// Counts of rules that matched and missed, and the source of the last
/// rule that matched.
#[derive(Debug, Clone, Default)]
pub struct FilterStats {
    pub matches: usize,
    pub misses: usize,
    pub last_source: Option<String>,
}

impl FilterStats {
    pub fn new() -> (r: Self)
        ensures
            r.matches == 0,
            r.misses == 0,
            r.last_source is None,
    {
        FilterStats { matches: 0, misses: 0, last_source: None }
    }

    /// Counts one rule test; a match also records the rule's source.
    pub fn record(&mut self, source: Option<&str>, matched: bool)
        requires
            matched ==> old(self).matches < usize::MAX,
            !matched ==> old(self).misses < usize::MAX,
        ensures
            matched ==> {
                &&& final(self).matches == old(self).matches + 1
                &&& final(self).misses == old(self).misses
                &&& match source {
                    Some(s) => final(self).last_source matches Some(l) && l@ == s@,
                    None => final(self).last_source is None,
                }
            },
            !matched ==> {
                &&& final(self).misses == old(self).misses + 1
                &&& final(self).matches == old(self).matches
                &&& final(self).last_source == old(self).last_source
            },
    {
        if matched {
            self.matches = self.matches + 1;
            self.last_source = match source {
                Some(s) => Some(s.to_owned()),
                None => None,
            };
        } else {
            self.misses = self.misses + 1;
        }
    }
}

} // verus!
