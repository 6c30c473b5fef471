//! Which paths a set of patterns selects.
use crate::error;
use crate::error::{message_error, AppError, AppResult};
use crate::text;
use crate::text::{debug_of, same_text, split_text, starts_with_char, strip_prefix, trim_trailing};
use globset::GlobMatcher;
use vstd::prelude::*;

verus! {

// ---------------------------------------------------------------------------
// Globs
// ---------------------------------------------------------------------------

#[verifier::external_type_specification]
#[verifier::external_body]
pub struct ExGlobMatcher(globset::GlobMatcher);

/// What a glob matches, or why it is refused.
pub type GlobOutcome = Result<Set<Seq<char>>, Seq<char>>;

/// The paths that `globset` matches with a pattern without a backslash, or the wording
/// of its error. A separator is matched only by a separator.
pub uninterp spec fn glob(pattern: Seq<char>) -> Result<Set<Seq<char>>, Seq<char>>;

/// The paths without a backslash that a compiled glob matches.
pub uninterp spec fn matcher_paths(matcher: GlobMatcher) -> Set<Seq<char>>;

/// How many bytes the automaton of a glob may have. It is given up at ten mebibytes; the
/// rest is left for what every glob needs.
pub const GLOB_SIZE: usize = 10_400_000;

/// How many bytes a byte of a glob adds to its automaton at most, if it is no star.
pub const BYTE_SIZE: usize = 80;

/// How many bytes a star adds more than another byte, at most.
pub const STAR_SIZE: usize = 42;

/// How deep the expression that a glob is compiled from may be.
pub const GLOB_DEPTH: u16 = 250;

/// How deep groups may nest in a glob that is refused: they are taken down one inside the
/// other, on the stack.
pub const GLOB_NESTING: u16 = 1_000;

/// How often `c` stands in a text.
pub open spec fn count(text: Seq<char>, c: char) -> nat
    decreases text.len(),
{
    if text.len() == 0 {
        0
    } else {
        count(text.drop_last(), c) + if text.last() == c {
            1nat
        } else {
            0nat
        }
    }
}

/// Where the next character of a glob stands: outside of a class, behind a backslash that
/// escapes it, at the beginning of a class, behind the sign that negates one, or further
/// inside of one.
#[derive(Clone, Copy, Debug, PartialEq, Eq, Structural)]
pub enum GlobPlace {
    Outside,
    Escaped,
    Opening,
    Negated,
    Inside,
}

/// What is known of a glob, or of a group of alternatives in braces, up to some place.
#[derive(Clone, Copy, Debug, PartialEq, Eq, Structural)]
pub struct Level {
    /// Whether the last alternative holds something.
    pub some: bool,
    /// Whether an alternative may hold more than one thing.
    pub several: bool,
    /// Whether there may be more than one alternative.
    pub branches: bool,
    /// How deep the deepest thing in it is at most.
    pub height: u16,
}

/// What is known of a glob up to some place: of the glob and of each group that is open,
/// and whether it can no longer become one.
pub struct Scan {
    pub place: GlobPlace,
    pub levels: Seq<Level>,
    pub broken: bool,
}

/// A level of which nothing was read.
pub open spec fn new_level() -> Level {
    Level { some: false, several: false, branches: false, height: 0 }
}

/// A level with one more thing of the given depth. A `wide` one counts for several.
pub open spec fn with_thing(level: Level, wide: bool, height: u16) -> Level {
    Level {
        some: true,
        several: level.several || level.some || wide,
        branches: level.branches,
        height: if height > level.height {
            height
        } else {
            level.height
        },
    }
}

/// The depth of a whole group: its braces, its alternatives if there are several, the
/// sequence in an alternative if it has several things, and the deepest of those. What is
/// too deep already is not counted further.
pub open spec fn group_height(level: Level) -> u16 {
    if level.height > GLOB_NESTING {
        level.height
    } else {
        (level.height + 1 + (if level.branches {
            1int
        } else {
            0
        }) + (if level.several {
            1int
        } else {
            0
        })) as u16
    }
}

/// A character beyond ASCII is compiled from several bytes.
pub open spec fn is_wide(c: char) -> bool {
    c as u32 > 0x7f
}

/// The depth of what a character outside of a class stands for. A class is compiled from a
/// list of characters; two stars may stand for two ways to match a separator.
pub open spec fn thing_height(c: char) -> u16 {
    if c == '*' {
        4
    } else if c == '[' {
        2
    } else if c == '?' {
        1
    } else {
        0
    }
}

/// The scan with one more thing in its innermost level.
pub open spec fn scan_with(scan: Scan, place: GlobPlace, wide: bool, height: u16) -> Scan {
    Scan {
        place,
        levels: scan.levels.drop_last().push(with_thing(scan.levels.last(), wide, height)),
        broken: scan.broken,
    }
}

/// The scan behind one more character outside of a class.
pub open spec fn advanced_outside(scan: Scan, c: char, escapes: bool) -> Scan {
    if c == '{' {
        Scan { levels: scan.levels.push(new_level()), ..scan }
    } else if c == '}' {
        if scan.levels.len() <= 1 {
            Scan { broken: true, ..scan }
        } else {
            scan_with(
                Scan { levels: scan.levels.drop_last(), ..scan },
                GlobPlace::Outside,
                false,
                group_height(scan.levels.last()),
            )
        }
    } else if c == ',' && scan.levels.len() > 1 {
        Scan {
            levels: scan.levels.drop_last().push(
                Level { some: false, branches: true, ..scan.levels.last() },
            ),
            ..scan
        }
    } else if c == '\\' && escapes {
        Scan { place: GlobPlace::Escaped, ..scan }
    } else {
        scan_with(
            scan,
            if c == '[' {
                GlobPlace::Opening
            } else {
                GlobPlace::Outside
            },
            is_wide(c),
            thing_height(c),
        )
    }
}

/// The scan behind one more character. The first character of a class does not close it.
pub open spec fn advanced(scan: Scan, c: char, escapes: bool) -> Scan {
    if scan.broken {
        scan
    } else {
        match scan.place {
            GlobPlace::Outside => advanced_outside(scan, c, escapes),
            GlobPlace::Escaped => scan_with(scan, GlobPlace::Outside, is_wide(c), 0),
            GlobPlace::Opening => if c == '!' || c == '^' {
                Scan { place: GlobPlace::Negated, ..scan }
            } else {
                Scan { place: GlobPlace::Inside, ..scan }
            },
            GlobPlace::Negated => Scan { place: GlobPlace::Inside, ..scan },
            GlobPlace::Inside => if c == ']' {
                Scan { place: GlobPlace::Outside, ..scan }
            } else {
                scan
            },
        }
    }
}

/// The scan of a whole glob, in which a backslash escapes what follows it or is an ordinary
/// character.
pub open spec fn scanned(pattern: Seq<char>, escapes: bool) -> Scan
    decreases pattern.len(),
{
    if pattern.len() == 0 {
        Scan { place: GlobPlace::Outside, levels: seq![new_level()], broken: false }
    } else {
        advanced(scanned(pattern.drop_last(), escapes), pattern.last(), escapes)
    }
}

/// Whether a glob is refused before it is compiled: a group is closed that was not opened,
/// or a group, a class or an escape is left open.
pub open spec fn is_malformed(scan: Scan) -> bool {
    scan.broken || scan.place != GlobPlace::Outside || scan.levels.len() > 1
}

/// Whether the groups that were closed do not nest too deep to take them down.
pub open spec fn is_light(scan: Scan) -> bool {
    forall|i: int|
        0 <= i < scan.levels.len() ==> (#[trigger] scan.levels[i]).height <= GLOB_NESTING
}

/// Whether a glob is not too deep to compile: the whole of it is a sequence.
pub open spec fn is_shallow(scan: Scan) -> bool {
    scan.levels[0].height < GLOB_DEPTH
}

/// How large the automaton of a glob is at most.
pub open spec fn automaton_size(pattern: Seq<char>) -> nat {
    vstd::utf8::encode_utf8(pattern).len() * (BYTE_SIZE as nat) + count(pattern, '*') * (
    STAR_SIZE as nat)
}

/// Whether a glob, in one of the readings of a backslash, is refused before it is compiled,
/// or is not too large to compile.
pub open spec fn compilable_as(pattern: Seq<char>, escapes: bool) -> bool {
    ||| is_malformed(scanned(pattern, escapes)) && is_light(scanned(pattern, escapes))
    ||| !is_malformed(scanned(pattern, escapes)) && automaton_size(pattern) <= GLOB_SIZE
        && is_shallow(scanned(pattern, escapes))
}

/// Whether a glob is refused before it is compiled, or is not too large to compile.
pub open spec fn compilable(pattern: Seq<char>) -> bool {
    compilable_as(pattern, true) && compilable_as(pattern, false)
}

/// What the compilation of a glob gave.
pub open spec fn glob_outcome(result: Result<GlobMatcher, String>) -> GlobOutcome {
    match result {
        Ok(matcher) => Ok(matcher_paths(matcher)),
        Err(error) => Err(error@),
    }
}

/// Compiles a glob with `globset::GlobBuilder`, its `literal_separator` set, and
/// `Glob::compile_matcher`. The result for a pattern without a backslash depends on the
/// pattern alone. A backslash is read as the machine's path separators have it, so
/// nothing is said of the result for a pattern with one. The compilation gives up with a
/// panic on a pattern whose automaton grows over ten mebibytes or whose expression is
/// deeper than 250; neither can happen within the bounds that are required here. A
/// malformed pattern is refused before that; the groups that were read of it are dropped
/// one inside the other, for which the stack must suffice.
#[verifier::external_body]
fn compile_glob(pattern: &str) -> (res: Result<GlobMatcher, String>)
    requires
        compilable(pattern@),
    ensures
        !pattern@.contains('\\') ==> glob_outcome(res) == glob(pattern@),
{
    let mut builder = globset::GlobBuilder::new(pattern);
    builder.literal_separator(true);
    let built = builder.build().map_err(|error| error.to_string())?;
    Ok(built.compile_matcher())
}

/// Matches a path with `globset::GlobMatcher::is_match`. A path that holds a
/// backslash is read in one way where a backslash separates paths and in another
/// where it does not, so nothing is said of it.
#[verifier::external_body]
fn glob_matches(matcher: &GlobMatcher, path: &str) -> (res: bool)
    ensures
        !path@.contains('\\') ==> res == matcher_paths(*matcher).contains(path@),
{
    matcher.is_match(path)
}

/// How often `c` stands in a text.
fn count_of(value: &str, c: char) -> (res: usize)
    ensures
        res == count(value@, c),
{
    let chars = text::chars_of(value);
    let mut number: usize = 0;
    let mut i: usize = 0;
    while i < chars.len()
        invariant
            i <= chars@.len(),
            number <= i,
            number == count(chars@.take(i as int), c),
        decreases chars@.len() - i,
    {
        proof {
            assert(chars@.take(i + 1).drop_last() =~= chars@.take(i as int));
            assert(chars@.take(i + 1).last() == chars@[i as int]);
        }
        if chars[i] == c {
            number = number + 1;
        }
        i = i + 1;
    }
    proof {
        assert(chars@.take(i as int) =~= chars@);
    }
    number
}

/// Tests whether the automaton of a glob is small enough.
fn fits(pattern: &str) -> (res: bool)
    ensures
        res == (automaton_size(pattern@) <= GLOB_SIZE),
{
    let bytes = pattern.as_bytes().len();
    let stars = count_of(pattern, '*');
    bytes <= GLOB_SIZE && stars <= GLOB_SIZE && (bytes as u64) * (BYTE_SIZE as u64) + (
    stars as u64) * (STAR_SIZE as u64) <= GLOB_SIZE as u64
}

fn level_with_thing(level: Level, wide: bool, height: u16) -> (res: Level)
    ensures
        res == with_thing(level, wide, height),
{
    Level {
        some: true,
        several: level.several || level.some || wide,
        branches: level.branches,
        height: if height > level.height {
            height
        } else {
            level.height
        },
    }
}

fn height_of_group(level: Level) -> (res: u16)
    ensures
        res == group_height(level),
{
    if level.height > GLOB_NESTING {
        return level.height;
    }
    let mut height = level.height + 1;
    if level.branches {
        height = height + 1;
    }
    if level.several {
        height = height + 1;
    }
    height
}

fn height_of_thing(c: char) -> (res: u16)
    ensures
        res == thing_height(c),
{
    if c == '*' {
        4
    } else if c == '[' {
        2
    } else if c == '?' {
        1
    } else {
        0
    }
}

/// What is known of a glob up to some place.
struct GlobScan {
    place: GlobPlace,
    levels: Vec<Level>,
    broken: bool,
}

impl View for GlobScan {
    type V = Scan;

    closed spec fn view(&self) -> Scan {
        Scan { place: self.place, levels: self.levels@, broken: self.broken }
    }
}

impl GlobScan {
    fn add_thing(&mut self, place: GlobPlace, wide: bool, height: u16)
        requires
            old(self)@.levels.len() > 0,
        ensures
            final(self)@ == scan_with(old(self)@, place, wide, height),
            final(self)@.levels.len() == old(self)@.levels.len(),
    {
        let level = self.levels.pop().unwrap();
        self.levels.push(level_with_thing(level, wide, height));
        self.place = place;
    }

    fn advance_outside(&mut self, c: char, escapes: bool)
        requires
            old(self)@.levels.len() > 0,
        ensures
            final(self)@ == advanced_outside(old(self)@, c, escapes),
            final(self)@.levels.len() > 0,
    {
        if c == '{' {
            self.levels.push(Level { some: false, several: false, branches: false, height: 0 });
        } else if c == '}' {
            if self.levels.len() <= 1 {
                self.broken = true;
            } else {
                let group = self.levels.pop().unwrap();
                self.add_thing(GlobPlace::Outside, false, height_of_group(group));
            }
        } else if c == ',' && self.levels.len() > 1 {
            let level = self.levels.pop().unwrap();
            self.levels.push(
                Level {
                    some: false,
                    several: level.several,
                    branches: true,
                    height: level.height,
                },
            );
        } else if c == '\\' && escapes {
            self.place = GlobPlace::Escaped;
        } else {
            let place = if c == '[' {
                GlobPlace::Opening
            } else {
                GlobPlace::Outside
            };
            self.add_thing(place, c as u32 > 0x7f, height_of_thing(c));
        }
    }

    fn advance(&mut self, c: char, escapes: bool)
        requires
            old(self)@.levels.len() > 0,
        ensures
            final(self)@ == advanced(old(self)@, c, escapes),
            final(self)@.levels.len() > 0,
    {
        if self.broken {
            return;
        }
        match self.place {
            GlobPlace::Outside => {
                self.advance_outside(c, escapes);
            },
            GlobPlace::Escaped => {
                self.add_thing(GlobPlace::Outside, c as u32 > 0x7f, 0);
            },
            GlobPlace::Opening => {
                self.place = if c == '!' || c == '^' {
                    GlobPlace::Negated
                } else {
                    GlobPlace::Inside
                };
            },
            GlobPlace::Negated => {
                self.place = GlobPlace::Inside;
            },
            GlobPlace::Inside => {
                if c == ']' {
                    self.place = GlobPlace::Outside;
                }
            },
        }
    }

    fn is_light(&self) -> (res: bool)
        ensures
            res == self::is_light(self@),
    {
        let mut i: usize = 0;
        while i < self.levels.len()
            invariant
                i <= self.levels@.len(),
                forall|k: int| 0 <= k < i ==> (#[trigger] self.levels@[k]).height <= GLOB_NESTING,
            decreases self.levels@.len() - i,
        {
            if self.levels[i].height > GLOB_NESTING {
                assert(self@.levels[i as int].height > GLOB_NESTING);
                return false;
            }
            i = i + 1;
        }
        true
    }
}

/// Tests whether a glob, in one of the readings of a backslash, is refused before it is
/// compiled, or is not too large to compile.
fn is_compilable_as(pattern: &str, escapes: bool) -> (res: bool)
    ensures
        res == compilable_as(pattern@, escapes),
{
    let chars = text::chars_of(pattern);
    let mut levels: Vec<Level> = Vec::new();
    levels.push(Level { some: false, several: false, branches: false, height: 0 });
    let mut scan = GlobScan { place: GlobPlace::Outside, levels, broken: false };
    let mut i: usize = 0;
    proof {
        assert(scan@.levels =~= seq![new_level()]);
    }
    while i < chars.len()
        invariant
            i <= chars@.len(),
            chars@ == pattern@,
            scan@ == scanned(pattern@.take(i as int), escapes),
            scan@.levels.len() > 0,
        decreases chars@.len() - i,
    {
        proof {
            assert(pattern@.take(i + 1).drop_last() =~= pattern@.take(i as int));
            assert(pattern@.take(i + 1).last() == chars@[i as int]);
        }
        scan.advance(chars[i], escapes);
        i = i + 1;
    }
    proof {
        assert(pattern@.take(i as int) =~= pattern@);
    }
    if scan.broken || scan.place != GlobPlace::Outside || scan.levels.len() > 1 {
        return scan.is_light();
    }
    fits(pattern) && scan.levels[0].height < GLOB_DEPTH
}

// ---------------------------------------------------------------------------
// One pattern
// ---------------------------------------------------------------------------

#[derive(Debug)]
enum Pattern {
    Exact(String),
    Glob(GlobMatcher),
}

/// The value of one pattern: a path, or the paths that a glob matches.
pub enum PatternView {
    Exact(Seq<char>),
    Glob(Set<Seq<char>>),
}

impl View for Pattern {
    type V = PatternView;

    closed spec fn view(&self) -> PatternView {
        match self {
            Pattern::Exact(path) => PatternView::Exact(path@),
            Pattern::Glob(matcher) => PatternView::Glob(matcher_paths(*matcher)),
        }
    }
}

/// Whether a path stands below the directory `parent`.
pub open spec fn descends(path: Seq<char>, parent: Seq<char>) -> bool {
    &&& parent.is_prefix_of(path)
    &&& parent.len() < path.len()
    &&& path[parent.len() as int] == '/'
}

/// The directories that a path stands below, from the top: what stands before each of
/// its slashes.
pub open spec fn directories_above(path: Seq<char>) -> Seq<Seq<char>>
    decreases path.len(),
{
    if path.len() == 0 {
        Seq::empty()
    } else if path.last() == '/' {
        directories_above(path.drop_last()).push(path.drop_last())
    } else {
        directories_above(path.drop_last())
    }
}

impl PatternView {
    /// A pattern matches a path and everything below it.
    pub open spec fn matches(self, path: Seq<char>) -> bool {
        match self {
            PatternView::Exact(expected) => path == expected || descends(path, expected),
            PatternView::Glob(paths) => paths.contains(path) || exists|i: int|
                0 <= i < directories_above(path).len() && paths.contains(
                    #[trigger] directories_above(path)[i],
                ),
        }
    }
}

impl PatternView {
    /// Whether a pattern matches a path on every machine.
    pub open spec fn surely_matches(self, path: Seq<char>) -> bool {
        self.matches(path) && (self is Exact || !path.contains('\\'))
    }

    /// Whether a pattern may match a path on some machine.
    pub open spec fn perhaps_matches(self, path: Seq<char>) -> bool {
        self.matches(path) || self is Glob && path.contains('\\')
    }
}

/// Whether a pattern is a glob.
pub open spec fn is_glob(value: Seq<char>) -> bool {
    exists|i: int| 0 <= i < value.len() && is_metacharacter(#[trigger] value[i])
}

pub open spec fn is_metacharacter(c: char) -> bool {
    c == '*' || c == '?' || c == '[' || c == '{'
}

/// A pattern without a leading `./` and without slashes at its end.
pub open spec fn cleaned(value: Seq<char>) -> Seq<char> {
    let value = if "./"@.is_prefix_of(value) {
        value.skip(2)
    } else {
        value
    };
    text::without_trailing(value, '/')
}

/// Whether a part of a path is `.` or `..`.
pub open spec fn is_relative_part(component: Seq<char>) -> bool {
    component == "."@ || component == ".."@
}

/// What a cleaned pattern means, or why it is refused, when `outcome` is what it means
/// as a glob.
pub open spec fn meaning(value: Seq<char>, outcome: GlobOutcome) -> Result<PatternView, Seq<char>> {
    let parts = text::split(value, '/');
    if value.len() == 0 {
        Err("download patterns cannot be empty"@)
    } else if value[0] == '/' {
        Err("pattern "@ + text::debug_text(value) + " must be repository-relative"@)
    } else if exists|i: int| 0 <= i < parts.len() && is_relative_part(#[trigger] parts[i]) {
        Err("pattern "@ + text::debug_text(value) + " contains an unsafe path component"@)
    } else if is_glob(value) {
        match outcome {
            Ok(paths) => Ok(PatternView::Glob(paths)),
            Err(reason) => Err(
                "invalid glob pattern "@ + text::debug_text(value) + ": "@ + reason,
            ),
        }
    } else {
        Ok(PatternView::Exact(value))
    }
}

/// What one pattern means, or why it is refused.
pub open spec fn pattern(value: Seq<char>) -> Result<PatternView, Seq<char>> {
    meaning(cleaned(value), glob(cleaned(value)))
}

impl Pattern {
    fn matches(&self, path: &str) -> (res: bool)
        ensures
            self@.surely_matches(path@) ==> res,
            res ==> self@.perhaps_matches(path@),
    {
        match self {
            Pattern::Exact(expected) => same_text(path, expected) || is_descendant(
                path,
                expected,
            ),
            Pattern::Glob(matcher) => glob_matches(matcher, path) || matches_ancestor(
                matcher,
                path,
            ),
        }
    }
}

fn is_descendant(path: &str, parent: &str) -> (res: bool)
    ensures
        res == descends(path@, parent@),
{
    match strip_prefix(path, parent) {
        Some(rest) => {
            proof {
                assert(parent@.is_prefix_of(path@));
                if rest@.len() > 0 {
                    assert(path@[parent@.len() as int] == rest@[0]);
                }
            }
            starts_with_char(&rest, '/')
        },
        None => false,
    }
}

/// The directories that a path stands below, from the top.
pub fn ancestors(path: &str) -> (res: Vec<String>)
    ensures
        text::texts(res@) == directories_above(path@),
{
    let chars = text::chars_of(path);
    let mut above: Vec<String> = Vec::new();
    let mut i: usize = 0;
    proof {
        assert(text::texts(above@) =~= Seq::empty());
    }
    while i < chars.len()
        invariant
            i <= chars@.len(),
            chars@ == path@,
            text::texts(above@) == directories_above(path@.take(i as int)),
        decreases chars@.len() - i,
    {
        proof {
            assert(path@.take(i + 1).drop_last() =~= path@.take(i as int));
        }
        if chars[i] == '/' {
            let directory = text::text_of(&chars, 0, i);
            let ghost before = above@;
            above.push(directory);
            proof {
                assert(directory@ =~= path@.take(i as int));
                assert(text::texts(above@) =~= text::texts(before).push(directory@));
            }
        }
        i = i + 1;
    }
    proof {
        assert(path@.take(i as int) =~= path@);
    }
    above
}

/// Whether the glob matches a directory that the path stands in.
fn matches_ancestor(matcher: &GlobMatcher, path: &str) -> (res: bool)
    ensures
        !path@.contains('\\') ==> res == (exists|i: int|
            0 <= i < directories_above(path@).len() && matcher_paths(*matcher).contains(
                #[trigger] directories_above(path@)[i],
            )),
{
    let above = ancestors(path);
    let ghost all = directories_above(path@);
    proof {
        assert(text::texts(above@).len() == above@.len());
    }
    let mut i: usize = 0;
    while i < above.len()
        invariant
            i <= above@.len(),
            all == directories_above(path@),
            text::texts(above@) == all,
            all.len() == above@.len(),
            !path@.contains('\\') ==> forall|k: int|
                0 <= k < i ==> !matcher_paths(*matcher).contains(#[trigger] all[k]),
        decreases above@.len() - i,
    {
        proof {
            assert(text::texts(above@)[i as int] == above@[i as int]@);
            lemma_directory_above(path@, i as int);
            if above@[i as int]@.contains('\\') {
                let k = choose|k: int|
                    0 <= k < all[i as int].len() && all[i as int][k] == '\\';
                assert(path@[k] == all[i as int][k]);
                assert(path@.contains('\\'));
            }
        }
        if glob_matches(matcher, &above[i]) {
            proof {
                if !path@.contains('\\') {
                    assert(matcher_paths(*matcher).contains(all[i as int]));
                }
            }
            return true;
        }
        i = i + 1;
    }
    false
}

/// A path stands below each of its directories.
proof fn lemma_directory_above(path: Seq<char>, i: int)
    requires
        0 <= i < directories_above(path).len(),
    ensures
        descends(path, directories_above(path)[i]),
        forall|k: int|
            0 <= k < directories_above(path)[i].len() ==> #[trigger] path[k]
                == directories_above(path)[i][k],
    decreases path.len(),
{
    let front = path.drop_last();
    let directory = directories_above(path)[i];
    if path.last() == '/' && i == directories_above(path).len() - 1 {
        assert(directory == front);
        assert(path.subrange(0, directory.len() as int) =~= directory);
    } else {
        assert(directory == directories_above(front)[i]);
        lemma_directory_above(front, i);
        assert(path[directory.len() as int] == front[directory.len() as int]);
        assert(path.subrange(0, directory.len() as int) =~= directory);
    }
}

fn has_glob_metacharacter(value: &str) -> (res: bool)
    ensures
        res == is_glob(value@),
{
    let chars = text::chars_of(value);
    let mut i: usize = 0;
    while i < chars.len()
        invariant
            i <= chars@.len(),
            chars@ == value@,
            forall|k: int| 0 <= k < i ==> !is_metacharacter(#[trigger] chars@[k]),
        decreases chars@.len() - i,
    {
        let c = chars[i];
        if c == '*' || c == '?' || c == '[' || c == '{' {
            proof {
                assert(is_metacharacter(value@[i as int]));
            }
            return true;
        }
        i = i + 1;
    }
    false
}

fn has_relative_part(parts: &Vec<String>) -> (res: bool)
    ensures
        res == (exists|i: int|
            0 <= i < parts@.len() && is_relative_part(#[trigger] text::texts(parts@)[i])),
{
    let mut i: usize = 0;
    while i < parts.len()
        invariant
            i <= parts@.len(),
            forall|k: int| 0 <= k < i ==> !is_relative_part(#[trigger] text::texts(parts@)[k]),
        decreases parts@.len() - i,
    {
        proof {
            assert(text::texts(parts@)[i as int] == parts@[i as int]@);
        }
        if same_text(&parts[i], ".") || same_text(&parts[i], "..") {
            return true;
        }
        i = i + 1;
    }
    false
}

fn pattern_error(value: &str, fault: &str) -> (res: AppError)
    ensures
        error::says(res, "pattern "@ + text::debug_text(value@) + fault@),
{
    let mut message = "pattern ".to_owned();
    message.append(&debug_of(value));
    message.append(fault);
    AppError::message(message)
}

/// The value of a pattern, or its refusal.
spec fn read(result: AppResult<Pattern>) -> Result<PatternView, error::ErrorView> {
    match result {
        Ok(pattern) => Ok(pattern@),
        Err(error) => Err(error@),
    }
}

/// A result whose error is a message.
spec fn refused<T>(result: Result<T, Seq<char>>) -> Result<T, error::ErrorView> {
    match result {
        Ok(value) => Ok(value),
        Err(message) => Err(error::ErrorView::Message(message)),
    }
}

/// Whether `outcome` can be what a cleaned pattern means as a glob: of a pattern
/// without a backslash, only one can.
pub open spec fn possible(value: Seq<char>, outcome: GlobOutcome) -> bool {
    !value.contains('\\') ==> outcome == glob(value)
}

/// Compiles a cleaned pattern.
fn compile_pattern(value: String) -> (res: AppResult<Pattern>)
    requires
        is_glob(value@) ==> compilable(value@),
    ensures
        exists|outcome: GlobOutcome|
            possible(value@, outcome) && read(res) == refused(#[trigger] meaning(value@, outcome)),
{
    proof {
        assert(possible(value@, glob(value@)));
    }
    if value.as_str().is_empty() {
        let error = message_error("download patterns cannot be empty");
        proof {
            assert(error@ == refused(meaning(value@, glob(value@)))->Err_0);
        }
        return Err(error);
    }
    if starts_with_char(&value, '/') {
        let error = pattern_error(&value, " must be repository-relative");
        proof {
            assert(error@ == refused(meaning(value@, glob(value@)))->Err_0);
        }
        return Err(error);
    }
    let parts = split_text(&value, '/');
    proof {
        assert(text::texts(parts@).len() == parts@.len());
    }
    if has_relative_part(&parts) {
        let error = pattern_error(&value, " contains an unsafe path component");
        proof {
            assert(error@ == refused(meaning(value@, glob(value@)))->Err_0);
        }
        return Err(error);
    }
    if has_glob_metacharacter(&value) {
        let compiled = compile_glob(&value);
        let ghost outcome = glob_outcome(compiled);
        proof {
            assert(possible(value@, outcome));
        }
        match compiled {
            Ok(matcher) => {
                let pattern = Pattern::Glob(matcher);
                proof {
                    assert(pattern@ == meaning(value@, outcome)->Ok_0);
                }
                Ok(pattern)
            },
            Err(reason) => {
                let mut message = "invalid glob pattern ".to_owned();
                message.append(&debug_of(&value));
                message.append(": ");
                message.append(&reason);
                let error = AppError::message(message);
                proof {
                    assert(error@ == refused(meaning(value@, outcome))->Err_0);
                }
                Err(error)
            },
        }
    } else {
        let pattern = Pattern::Exact(value);
        proof {
            assert(pattern@ == meaning(value@, glob(value@))->Ok_0);
        }
        Ok(pattern)
    }
}

// ---------------------------------------------------------------------------
// Sets of patterns
// ---------------------------------------------------------------------------

/// Patterns that add paths and patterns that take paths away.
#[derive(Debug)]
pub struct PatternSet {
    positives: Vec<Pattern>,
    negatives: Vec<Pattern>,
}

/// The value of a [`PatternSet`].
pub struct PatternSetView {
    pub positives: Seq<PatternView>,
    pub negatives: Seq<PatternView>,
}

spec fn pattern_views(patterns: Seq<Pattern>) -> Seq<PatternView> {
    patterns.map_values(|pattern: Pattern| pattern@)
}

impl View for PatternSet {
    type V = PatternSetView;

    closed spec fn view(&self) -> PatternSetView {
        PatternSetView {
            positives: pattern_views(self.positives@),
            negatives: pattern_views(self.negatives@),
        }
    }
}

/// Whether one of the patterns matches a path.
pub open spec fn any_matches(patterns: Seq<PatternView>, path: Seq<char>) -> bool {
    exists|i: int| 0 <= i < patterns.len() && (#[trigger] patterns[i]).matches(path)
}

/// Whether one of the patterns matches a path on every machine.
pub open spec fn any_surely_matches(patterns: Seq<PatternView>, path: Seq<char>) -> bool {
    exists|i: int| 0 <= i < patterns.len() && (#[trigger] patterns[i]).surely_matches(path)
}

/// Whether one of the patterns may match a path on some machine.
pub open spec fn any_perhaps_matches(patterns: Seq<PatternView>, path: Seq<char>) -> bool {
    exists|i: int| 0 <= i < patterns.len() && (#[trigger] patterns[i]).perhaps_matches(path)
}

/// Whether no pattern is a glob.
pub open spec fn no_globs(patterns: Seq<PatternView>) -> bool {
    forall|i: int| 0 <= i < patterns.len() ==> #[trigger] patterns[i] is Exact
}

impl PatternSetView {
    /// Whether a path is selected or not alike on every machine: globs read a backslash
    /// as the machine's path separators have it.
    pub open spec fn decides(self, path: Seq<char>) -> bool {
        !path.contains('\\') || no_globs(self.positives) && no_globs(self.negatives)
    }

    /// A path is selected when a positive pattern matches it, or there is none, and
    /// no negative pattern matches it.
    pub open spec fn selects(self, path: Seq<char>) -> bool {
        &&& self.positives.len() == 0 || any_matches(self.positives, path)
        &&& !any_matches(self.negatives, path)
    }

    /// Whether a path is selected on every machine.
    pub open spec fn surely_selects(self, path: Seq<char>) -> bool {
        &&& self.positives.len() == 0 || any_surely_matches(self.positives, path)
        &&& !any_perhaps_matches(self.negatives, path)
    }

    /// Whether a path may be selected on some machine.
    pub open spec fn perhaps_selects(self, path: Seq<char>) -> bool {
        &&& self.positives.len() == 0 || any_perhaps_matches(self.positives, path)
        &&& !any_surely_matches(self.negatives, path)
    }

    /// Whether `verdict` can be the answer to whether a path is selected.
    pub open spec fn allows(self, path: Seq<char>, verdict: bool) -> bool {
        (self.surely_selects(path) ==> verdict) && (verdict ==> self.perhaps_selects(path))
    }
}

/// Whether a value takes paths away.
pub open spec fn is_negative(value: Seq<char>) -> bool {
    value.len() > 0 && value[0] == '!'
}

/// The pattern in a value.
pub open spec fn body(value: Seq<char>) -> Seq<char> {
    if is_negative(value) {
        value.drop_first()
    } else {
        value
    }
}

/// The set that values stand for when `outcomes` are what they mean as globs, or why
/// the first refused one is refused.
pub open spec fn compiled_with(values: Seq<Seq<char>>, outcomes: Seq<GlobOutcome>) -> Result<
    PatternSetView,
    Seq<char>,
>
    decreases values.len(),
{
    if values.len() == 0 {
        Ok(PatternSetView { positives: Seq::empty(), negatives: Seq::empty() })
    } else {
        match compiled_with(values.drop_last(), outcomes.drop_last()) {
            Err(message) => Err(message),
            Ok(set) => match meaning(cleaned(body(values.last())), outcomes.last()) {
                Err(message) => Err(message),
                Ok(pattern) => Ok(extended(set, is_negative(values.last()), pattern)),
            },
        }
    }
}

/// The set that values stand for, or why the first refused one is refused.
pub open spec fn compiled(values: Seq<Seq<char>>) -> Result<PatternSetView, Seq<char>>
    decreases values.len(),
{
    if values.len() == 0 {
        Ok(PatternSetView { positives: Seq::empty(), negatives: Seq::empty() })
    } else {
        match compiled(values.drop_last()) {
            Err(message) => Err(message),
            Ok(set) => match pattern(body(values.last())) {
                Err(message) => Err(message),
                Ok(pattern) => Ok(extended(set, is_negative(values.last()), pattern)),
            },
        }
    }
}

/// A set with one more pattern on one side.
pub open spec fn extended(set: PatternSetView, negative: bool, pattern: PatternView) -> PatternSetView {
    if negative {
        PatternSetView { negatives: set.negatives.push(pattern), ..set }
    } else {
        PatternSetView { positives: set.positives.push(pattern), ..set }
    }
}

/// Whether `outcomes` can be what values mean as globs.
pub open spec fn all_possible(values: Seq<Seq<char>>, outcomes: Seq<GlobOutcome>) -> bool {
    &&& outcomes.len() == values.len()
    &&& forall|i: int|
        0 <= i < values.len() ==> possible(cleaned(body(#[trigger] values[i])), outcomes[i])
}

/// Whether a value means the same on every machine: it is no glob with a backslash.
pub open spec fn is_portable(value: Seq<char>) -> bool {
    is_glob(cleaned(body(value))) ==> !cleaned(body(value)).contains('\\')
}

/// Whether values mean the same on every machine.
pub open spec fn portable(values: Seq<Seq<char>>) -> bool {
    forall|i: int| 0 <= i < values.len() ==> is_portable(#[trigger] values[i])
}

/// Whether a value is no glob that is too large to compile.
pub open spec fn manageable(value: Seq<char>) -> bool {
    is_glob(cleaned(body(value))) ==> compilable(cleaned(body(value)))
}

/// Whether no value is a glob that is too large to compile.
pub open spec fn all_manageable(values: Seq<Seq<char>>) -> bool {
    forall|i: int| 0 <= i < values.len() ==> manageable(#[trigger] values[i])
}

/// Splits a value into whether it takes paths away and its cleaned pattern.
fn split_value(value: &str) -> (res: (bool, String))
    ensures
        res.0 == is_negative(value@),
        res.1@ == cleaned(body(value@)),
{
    proof {
        reveal_strlit("!");
        reveal_strlit("./");
    }
    let (negative, rest) = match strip_prefix(value, "!") {
        Some(rest) => {
            proof {
                assert(value@[0] == '!');
                assert(rest@ =~= value@.drop_first());
            }
            (true, rest)
        },
        None => {
            proof {
                if is_negative(value@) {
                    assert("!"@.is_prefix_of(value@));
                }
            }
            (false, value.to_owned())
        },
    };
    let stripped = match strip_prefix(&rest, "./") {
        Some(inner) => {
            proof {
                assert("./"@.is_prefix_of(rest@));
                assert(inner@ =~= rest@.skip(2));
            }
            inner
        },
        None => rest,
    };
    (negative, trim_trailing(&stripped, '/'))
}

/// Tests whether a value is no glob that is too large to compile.
pub fn is_manageable(value: &str) -> (res: bool)
    ensures
        res == manageable(value@),
{
    let (_, pattern) = split_value(value);
    if !has_glob_metacharacter(&pattern) {
        return true;
    }
    is_compilable_as(&pattern, true) && is_compilable_as(&pattern, false)
}

/// The value of a set, or of its refusal.
pub open spec fn set_view(result: AppResult<PatternSet>) -> Result<
    PatternSetView,
    error::ErrorView,
> {
    match result {
        Ok(set) => Ok(set@),
        Err(error) => Err(error@),
    }
}

/// A compilation whose error is a message.
pub open spec fn set_result(result: Result<PatternSetView, Seq<char>>) -> Result<
    PatternSetView,
    error::ErrorView,
> {
    match result {
        Ok(set) => Ok(set),
        Err(message) => Err(error::ErrorView::Message(message)),
    }
}

impl PatternSet {
    /// Compiles the values of a command line. What a glob with a backslash matches, or
    /// whether it is refused, differs from machine to machine.
    pub fn compile(values: &Vec<String>) -> (res: AppResult<Self>)
        requires
            all_manageable(text::texts(values@)),
        ensures
            portable(text::texts(values@)) ==> set_view(res) == set_result(
                compiled(text::texts(values@)),
            ),
            exists|outcomes: Seq<GlobOutcome>|
                all_possible(text::texts(values@), outcomes) && set_view(res) == set_result(
                    #[trigger] compiled_with(text::texts(values@), outcomes),
                ),
    {
        let mut positives: Vec<Pattern> = Vec::new();
        let mut negatives: Vec<Pattern> = Vec::new();
        let ghost all = text::texts(values@);
        let ghost mut outcomes: Seq<GlobOutcome> = named_outcomes(all);
        let mut i: usize = 0;
        proof {
            assert(pattern_views(positives@) =~= Seq::empty());
            assert(pattern_views(negatives@) =~= Seq::empty());
        }
        while i < values.len()
            invariant
                i <= values@.len(),
                all == text::texts(values@),
                all_manageable(all),
                all_possible(all, outcomes),
                compiled_with(all.take(i as int), outcomes.take(i as int)) == Ok::<
                    PatternSetView,
                    Seq<char>,
                >(
                    PatternSetView {
                        positives: pattern_views(positives@),
                        negatives: pattern_views(negatives@),
                    },
                ),
            decreases values@.len() - i,
        {
            let (negative, pattern_text) = split_value(values[i].as_str());
            let ghost before = outcomes;
            proof {
                assert(all[i as int] == values@[i as int]@);
                assert(manageable(all[i as int]));
            }
            let result = compile_pattern(pattern_text);
            proof {
                let outcome = choose|outcome: GlobOutcome|
                    possible(pattern_text@, outcome) && read(result) == refused(
                        #[trigger] meaning(pattern_text@, outcome),
                    );
                outcomes = outcomes.update(i as int, outcome);
                assert(all.take(i + 1).drop_last() =~= all.take(i as int));
                assert(all.take(i + 1).last() == all[i as int]);
                assert(outcomes.take(i + 1).drop_last() =~= before.take(i as int));
                assert(outcomes.take(i + 1).last() == outcome);
            }
            match result {
                Ok(pattern) => {
                    let ghost before = (positives@, negatives@);
                    if negative {
                        negatives.push(pattern);
                        proof {
                            assert(pattern_views(negatives@) =~= pattern_views(before.1).push(
                                pattern@,
                            ));
                        }
                    } else {
                        positives.push(pattern);
                        proof {
                            assert(pattern_views(positives@) =~= pattern_views(before.0).push(
                                pattern@,
                            ));
                        }
                    }
                },
                Err(error) => {
                    proof {
                        lemma_refusal_stays(all, outcomes, i + 1);
                        lemma_portable_values(all, outcomes);
                    }
                    return Err(error);
                },
            }
            i = i + 1;
        }
        proof {
            assert(all.take(i as int) =~= all);
            assert(outcomes.take(i as int) =~= outcomes);
            lemma_portable_values(all, outcomes);
        }
        Ok(PatternSet { positives, negatives })
    }

    /// Whether the patterns select a path. What a glob makes of a path with a backslash
    /// differs from machine to machine.
    pub fn selects(&self, path: &str) -> (res: bool)
        ensures
            self@.decides(path@) ==> res == self@.selects(path@),
            self@.allows(path@, res),
    {
        proof {
            lemma_selection_is_bounded(self@, path@);
        }
        let included = self.positives.len() == 0 || any_pattern_matches(&self.positives, path);
        included && !any_pattern_matches(&self.negatives, path)
    }
}

fn any_pattern_matches(patterns: &Vec<Pattern>, path: &str) -> (res: bool)
    ensures
        any_surely_matches(pattern_views(patterns@), path@) ==> res,
        res ==> any_perhaps_matches(pattern_views(patterns@), path@),
{
    let ghost all = pattern_views(patterns@);
    let mut i: usize = 0;
    while i < patterns.len()
        invariant
            i <= patterns@.len(),
            all == pattern_views(patterns@),
            forall|k: int| 0 <= k < i ==> !(#[trigger] all[k]).surely_matches(path@),
        decreases patterns@.len() - i,
    {
        proof {
            assert(all[i as int] == patterns@[i as int]@);
        }
        if patterns[i].matches(path) {
            return true;
        }
        i = i + 1;
    }
    false
}

/// What `globset` makes of values that hold no backslash.
spec fn named_outcomes(values: Seq<Seq<char>>) -> Seq<GlobOutcome> {
    Seq::new(values.len(), |i: int| glob(cleaned(body(values[i]))))
}

proof fn lemma_refusal_stays(values: Seq<Seq<char>>, outcomes: Seq<GlobOutcome>, i: int)
    requires
        0 <= i <= values.len(),
        outcomes.len() == values.len(),
        compiled_with(values.take(i), outcomes.take(i)) is Err,
    ensures
        compiled_with(values, outcomes) == compiled_with(values.take(i), outcomes.take(i)),
    decreases values.len(),
{
    if i == values.len() {
        assert(values.take(i) =~= values);
        assert(outcomes.take(i) =~= outcomes);
    } else {
        assert(values.drop_last().take(i) =~= values.take(i));
        assert(outcomes.drop_last().take(i) =~= outcomes.take(i));
        lemma_refusal_stays(values.drop_last(), outcomes.drop_last(), i);
    }
}

/// Values that mean the same on every machine stand for one set.
proof fn lemma_portable_values(values: Seq<Seq<char>>, outcomes: Seq<GlobOutcome>)
    requires
        all_possible(values, outcomes),
    ensures
        portable(values) ==> compiled_with(values, outcomes) == compiled(values),
    decreases values.len(),
{
    if values.len() > 0 && portable(values) {
        let front = values.drop_last();
        let rest = outcomes.drop_last();
        assert forall|i: int| 0 <= i < front.len() implies possible(
            cleaned(body(#[trigger] front[i])),
            rest[i],
        ) && is_portable(front[i]) by {
            assert(front[i] == values[i]);
            assert(is_portable(values[i]));
        }
        lemma_portable_values(front, rest);
        let last = values[values.len() - 1];
        assert(is_portable(last));
        assert(possible(cleaned(body(last)), outcomes.last()));
    }
}

// ---------------------------------------------------------------------------
// Laws
// ---------------------------------------------------------------------------

/// What is selected on every machine is selected, and what is selected may be selected on
/// some machine. Where the machine does not matter the three are the same.
pub proof fn lemma_selection_is_bounded(set: PatternSetView, path: Seq<char>)
    ensures
        set.surely_selects(path) ==> set.selects(path),
        set.selects(path) ==> set.perhaps_selects(path),
        set.decides(path) ==> set.surely_selects(path) == set.selects(path),
        set.decides(path) ==> set.perhaps_selects(path) == set.selects(path),
{
    lemma_matches_are_bounded(set.positives, path);
    lemma_matches_are_bounded(set.negatives, path);
}

proof fn lemma_matches_are_bounded(patterns: Seq<PatternView>, path: Seq<char>)
    ensures
        any_surely_matches(patterns, path) ==> any_matches(patterns, path),
        any_matches(patterns, path) ==> any_perhaps_matches(patterns, path),
        !path.contains('\\') || no_globs(patterns) ==> any_surely_matches(patterns, path)
            == any_matches(patterns, path) && any_perhaps_matches(patterns, path)
            == any_matches(patterns, path),
{
    if any_surely_matches(patterns, path) {
        let i = choose|i: int|
            0 <= i < patterns.len() && (#[trigger] patterns[i]).surely_matches(path);
        assert(patterns[i].matches(path));
    }
    if any_matches(patterns, path) {
        let i = choose|i: int| 0 <= i < patterns.len() && (#[trigger] patterns[i]).matches(path);
        assert(patterns[i].perhaps_matches(path));
        if !path.contains('\\') || no_globs(patterns) {
            assert(patterns[i].surely_matches(path));
        }
    }
    if any_perhaps_matches(patterns, path) && (!path.contains('\\') || no_globs(patterns)) {
        let i = choose|i: int|
            0 <= i < patterns.len() && (#[trigger] patterns[i]).perhaps_matches(path);
        assert(patterns[i].matches(path));
    }
}

/// No patterns select everything.
pub proof fn lemma_no_patterns_select_everything(path: Seq<char>)
    ensures
        compiled(Seq::empty()) matches Ok(set) && set.selects(path),
{
}

/// Negative patterns alone select everything but what they match.
pub proof fn lemma_negative_patterns_start_from_everything(
    values: Seq<Seq<char>>,
    path: Seq<char>,
)
    requires
        forall|i: int| 0 <= i < values.len() ==> is_negative(#[trigger] values[i]),
    ensures
        compiled(values) matches Ok(set) ==> (set.selects(path) <==> !any_matches(
            set.negatives,
            path,
        )),
{
    lemma_only_negatives(values);
}

proof fn lemma_only_negatives(values: Seq<Seq<char>>)
    requires
        forall|i: int| 0 <= i < values.len() ==> is_negative(#[trigger] values[i]),
    ensures
        compiled(values) matches Ok(set) ==> set.positives.len() == 0,
    decreases values.len(),
{
    if values.len() > 0 {
        assert(forall|i: int|
            0 <= i < values.drop_last().len() ==> values.drop_last()[i] == values[i]);
        lemma_only_negatives(values.drop_last());
    }
}

/// Whether a value among `values` contributes a pattern to one side of the set.
pub open spec fn contributes(
    values: Seq<Seq<char>>,
    negative: bool,
    contributed: PatternView,
) -> bool {
    exists|i: int|
        0 <= i < values.len() && is_negative(#[trigger] values[i]) == negative && pattern(
            body(values[i]),
        ) == Ok::<PatternView, Seq<char>>(contributed)
}

proof fn lemma_contributions(
    values: Seq<Seq<char>>,
    negative: bool,
    contributed: PatternView,
)
    ensures
        compiled(values) matches Ok(set) ==> ((if negative {
            set.negatives
        } else {
            set.positives
        }).contains(contributed) <==> contributes(values, negative, contributed)),
    decreases values.len(),
{
    if values.len() > 0 && compiled(values) is Ok {
        let front = values.drop_last();
        lemma_contributions(front, negative, contributed);
        let before = compiled(front)->Ok_0;
        let set = compiled(values)->Ok_0;
        let old_side = if negative {
            before.negatives
        } else {
            before.positives
        };
        let side = if negative {
            set.negatives
        } else {
            set.positives
        };
        let last = pattern(body(values.last()))->Ok_0;
        if is_negative(values.last()) == negative {
            assert(side == old_side.push(last));
            if side.contains(contributed) {
                let k = choose|k: int| 0 <= k < side.len() && side[k] == contributed;
                if k < old_side.len() {
                    assert(old_side[k] == contributed);
                    let i = choose|i: int|
                        0 <= i < front.len() && is_negative(#[trigger] front[i]) == negative
                            && pattern(body(front[i])) == Ok::<PatternView, Seq<char>>(
                            contributed,
                        );
                    assert(values[i] == front[i]);
                } else {
                    assert(is_negative(values[values.len() - 1]) == negative);
                }
            }
            if contributes(values, negative, contributed) {
                let i = choose|i: int|
                    0 <= i < values.len() && is_negative(#[trigger] values[i]) == negative
                        && pattern(body(values[i])) == Ok::<PatternView, Seq<char>>(
                        contributed,
                    );
                if i < front.len() {
                    assert(front[i] == values[i]);
                    let k = choose|k: int| 0 <= k < old_side.len() && old_side[k] == contributed;
                    assert(side[k] == contributed);
                } else {
                    assert(side[side.len() - 1] == contributed);
                }
            }
        } else {
            assert(side == old_side);
            if contributes(front, negative, contributed) {
                let i = choose|i: int|
                    0 <= i < front.len() && is_negative(#[trigger] front[i]) == negative
                        && pattern(body(front[i])) == Ok::<PatternView, Seq<char>>(
                        contributed,
                    );
                assert(values[i] == front[i]);
            }
            if contributes(values, negative, contributed) {
                let i = choose|i: int|
                    0 <= i < values.len() && is_negative(#[trigger] values[i]) == negative
                        && pattern(body(values[i])) == Ok::<PatternView, Seq<char>>(
                        contributed,
                    );
                assert(front[i] == values[i]);
            }
        }
    }
}

/// Whether every value of `left` is also one of `right`.
pub open spec fn included(left: Seq<Seq<char>>, right: Seq<Seq<char>>) -> bool {
    forall|i: int| 0 <= i < left.len() ==> right.contains(#[trigger] left[i])
}

proof fn lemma_included_contributions(
    left: Seq<Seq<char>>,
    right: Seq<Seq<char>>,
    negative: bool,
    contributed: PatternView,
)
    requires
        included(left, right),
        contributes(left, negative, contributed),
    ensures
        contributes(right, negative, contributed),
{
    let i = choose|i: int|
        0 <= i < left.len() && is_negative(#[trigger] left[i]) == negative && pattern(
            body(left[i]),
        ) == Ok::<PatternView, Seq<char>>(contributed);
    assert(right.contains(left[i]));
    let k = choose|k: int| 0 <= k < right.len() && right[k] == left[i];
    assert(is_negative(right[k]) == negative);
}

proof fn lemma_matches_follow(
    left: Seq<PatternView>,
    right: Seq<PatternView>,
    path: Seq<char>,
)
    requires
        forall|p: PatternView| left.contains(p) ==> #[trigger] right.contains(p),
        any_matches(left, path),
    ensures
        any_matches(right, path),
{
    let i = choose|i: int| 0 <= i < left.len() && (#[trigger] left[i]).matches(path);
    assert(left.contains(left[i]));
    assert(right.contains(left[i]));
    let k = choose|k: int| 0 <= k < right.len() && right[k] == left[i];
    assert(right[k].matches(path));
}

/// Values are accepted together exactly when each is accepted.
pub proof fn lemma_values_are_accepted_one_by_one(values: Seq<Seq<char>>)
    ensures
        compiled(values) is Ok <==> forall|i: int|
            0 <= i < values.len() ==> pattern(body(#[trigger] values[i])) is Ok,
    decreases values.len(),
{
    if values.len() > 0 {
        let front = values.drop_last();
        lemma_values_are_accepted_one_by_one(front);
        if compiled(values) is Ok {
            assert forall|i: int| 0 <= i < values.len() implies pattern(
                body(#[trigger] values[i]),
            ) is Ok by {
                if i < front.len() {
                    assert(front[i] == values[i]);
                }
            }
        } else if forall|i: int|
            0 <= i < values.len() ==> pattern(body(#[trigger] values[i])) is Ok {
            assert(forall|i: int| 0 <= i < front.len() ==> #[trigger] front[i] == values[i]);
            assert(pattern(body(values[values.len() - 1])) is Ok);
        }
    }
}

proof fn lemma_one_way(
    left: Seq<Seq<char>>,
    right: Seq<Seq<char>>,
    path: Seq<char>,
)
    requires
        included(left, right),
        included(right, left),
        compiled(left) is Ok,
        compiled(right) is Ok,
        compiled(left)->Ok_0.selects(path),
    ensures
        compiled(right)->Ok_0.selects(path),
{
    let first = compiled(left)->Ok_0;
    let second = compiled(right)->Ok_0;
    assert forall|p: PatternView| first.positives.contains(p) implies
        #[trigger] second.positives.contains(p) by {
        lemma_contributions(left, false, p);
        lemma_contributions(right, false, p);
        lemma_included_contributions(left, right, false, p);
    }
    assert forall|p: PatternView| second.positives.contains(p) implies
        #[trigger] first.positives.contains(p) by {
        lemma_contributions(left, false, p);
        lemma_contributions(right, false, p);
        lemma_included_contributions(right, left, false, p);
    }
    assert forall|p: PatternView| second.negatives.contains(p) implies
        #[trigger] first.negatives.contains(p) by {
        lemma_contributions(left, true, p);
        lemma_contributions(right, true, p);
        lemma_included_contributions(right, left, true, p);
    }
    if second.positives.len() > 0 {
        assert(second.positives.contains(second.positives[0]));
        assert(first.positives.contains(second.positives[0]));
        lemma_matches_follow(first.positives, second.positives, path);
    }
    if any_matches(second.negatives, path) {
        lemma_matches_follow(second.negatives, first.negatives, path);
    }
}

proof fn lemma_acceptance_follows(left: Seq<Seq<char>>, right: Seq<Seq<char>>)
    requires
        included(left, right),
    ensures
        (forall|i: int|
            0 <= i < right.len() ==> pattern(body(#[trigger] right[i])) is Ok) ==> (
        forall|i: int| 0 <= i < left.len() ==> pattern(body(#[trigger] left[i])) is Ok),
{
    if forall|i: int|
        0 <= i < right.len() ==> pattern(body(#[trigger] right[i])) is Ok {
        assert forall|i: int| 0 <= i < left.len() implies pattern(body(#[trigger] left[i])) is Ok by {
            assert(right.contains(left[i]));
            let k = choose|k: int| 0 <= k < right.len() && right[k] == left[i];
            assert(pattern(body(right[k])) is Ok);
        }
    }
}

/// Neither the order of the values nor a repetition matters: negative patterns
/// subtract from positive ones wherever they stand.
pub proof fn lemma_order_does_not_matter(
    left: Seq<Seq<char>>,
    right: Seq<Seq<char>>,
    path: Seq<char>,
)
    requires
        included(left, right),
        included(right, left),
    ensures
        compiled(left) is Ok <==> compiled(right) is Ok,
        compiled(left) matches Ok(first) ==> compiled(right) matches Ok(second)
            ==> (first.selects(path) <==> second.selects(path)),
{
    lemma_values_are_accepted_one_by_one(left);
    lemma_values_are_accepted_one_by_one(right);
    lemma_acceptance_follows(left, right);
    lemma_acceptance_follows(right, left);
    if compiled(left) is Ok && compiled(right) is Ok {
        let first = compiled(left)->Ok_0;
        let second = compiled(right)->Ok_0;
        if first.selects(path) {
            lemma_one_way(left, right, path);
        }
        if second.selects(path) {
            lemma_one_way(right, left, path);
        }
    }
}

/// A pattern that matches a directory matches everything below it.
pub proof fn lemma_directory_matches_descendants(
    pattern: PatternView,
    directory: Seq<char>,
    rest: Seq<char>,
)
    requires
        match pattern {
            PatternView::Exact(expected) => expected == directory,
            PatternView::Glob(paths) => paths.contains(directory),
        },
    ensures
        pattern.matches(directory + "/"@ + rest),
{
    reveal_strlit("/");
    let path = directory + "/"@ + rest;
    let at = directory.len() as int;
    assert(path[at] == '/');
    assert(directory.is_prefix_of(path)) by {
        assert(path.subrange(0, at) =~= directory);
    }
    lemma_directories_above(path, directory);
    let i = choose|i: int|
        0 <= i < directories_above(path).len() && directories_above(path)[i] == directory;
    assert(directories_above(path)[i] == directory);
}

/// The directories that a glob is tried on are exactly those that the path descends
/// from, which are those that it begins with, followed by a slash. They come from the
/// top, one for each slash, and the path is not among them.
pub proof fn lemma_directories_above(path: Seq<char>, directory: Seq<char>)
    ensures
        directories_above(path).contains(directory) <==> descends(path, directory),
        descends(path, directory) <==> (directory + "/"@).is_prefix_of(path),
        forall|i: int, j: int|
            0 <= i < j < directories_above(path).len() ==> (
            #[trigger] directories_above(path)[i]).len() < (
            #[trigger] directories_above(path)[j]).len(),
        directories_above(path).len() == count(path, '/'),
        !directories_above(path).contains(path),
    decreases path.len(),
{
    reveal_strlit("/");
    let above = directories_above(path);
    let n = directory.len() as int;
    if descends(path, directory) {
        assert(path.subrange(0, n + 1) =~= directory + "/"@);
    }
    if (directory + "/"@).is_prefix_of(path) {
        assert(path.subrange(0, n + 1) == directory + "/"@);
        assert(path[n] == path.subrange(0, n + 1)[n]);
        assert(path.subrange(0, n) =~= directory) by {
            assert forall|k: int| 0 <= k < n implies path[k] == directory[k] by {
                assert(path[k] == path.subrange(0, n + 1)[k]);
            }
        }
    }
    assert forall|i: int| 0 <= i < above.len() implies descends(path, #[trigger] above[i]) by {
        lemma_directory_above(path, i);
    }
    if above.contains(path) {
        let i = choose|i: int| 0 <= i < above.len() && above[i] == path;
        assert(descends(path, above[i]));
    }
    if path.len() > 0 {
        let front = path.drop_last();
        lemma_directories_above(front, directory);
        let before = directories_above(front);
        assert forall|i: int, j: int| 0 <= i < j < above.len() implies (#[trigger] above[i]).len()
            < (#[trigger] above[j]).len() by {
            assert(above[i] == before[i]);
            if j < before.len() {
                assert(above[j] == before[j]);
            } else {
                lemma_directory_above(front, i);
            }
        }
        if descends(path, directory) {
            if n == front.len() {
                assert(directory =~= front);
                assert(above[above.len() - 1] == directory);
            } else {
                assert(front[n] == path[n]);
                assert(front.subrange(0, n) =~= directory);
                let i = choose|i: int| 0 <= i < before.len() && before[i] == directory;
                assert(above[i] == directory);
            }
        }
    }
}

proof fn lemma_trailing_is_prefix(value: Seq<char>, c: char)
    ensures
        text::without_trailing(value, c).len() <= value.len(),
        text::without_trailing(value, c) == value.take(
            text::without_trailing(value, c).len() as int,
        ),
    decreases value.len(),
{
    if value.len() > 0 && value.last() == c {
        lemma_trailing_is_prefix(value.drop_last(), c);
        let n = text::without_trailing(value, c).len() as int;
        assert(value.drop_last().take(n) =~= value.take(n));
    } else {
        assert(value.take(value.len() as int) =~= value);
    }
}

/// A path with a slash behind it selects the path and everything below it.
pub proof fn lemma_slash_selects_a_directory(directory: Seq<char>, rest: Seq<char>)
    requires
        pattern(directory) == Ok::<PatternView, Seq<char>>(PatternView::Exact(directory)),
        !is_negative(directory),
    ensures
        compiled(seq![directory + "/"@]) matches Ok(set) && set.selects(directory)
            && set.selects(directory + "/"@ + rest),
{
    reveal_strlit("/");
    reveal_strlit("./");
    reveal_strlit(".");
    reveal_with_fuel(text::split, 2);
    reveal_with_fuel(compiled, 2);
    let value = directory + "/"@;
    lemma_trailing_is_prefix(directory, '/');
    assert(directory =~= cleaned(directory));
    if "./"@.is_prefix_of(directory) {
        lemma_trailing_is_prefix(directory.skip(2), '/');
        assert(false);
    }
    if "./"@.is_prefix_of(value) {
        if directory.len() >= 2 {
            assert("./"@.is_prefix_of(directory)) by {
                assert(directory.subrange(0, 2) =~= value.subrange(0, 2));
            }
        } else {
            assert(value.subrange(0, 2)[0] == '.');
            assert(directory =~= "."@);
            assert(text::split(directory, '/')[0] =~= "."@);
            assert(is_relative_part(text::split(directory, '/')[0]));
        }
        assert(false);
    }
    assert(value.drop_last() =~= directory);
    assert(cleaned(value) == directory);
    let values = seq![value];
    assert(values.drop_last() =~= Seq::empty());
    let set = compiled(values)->Ok_0;
    let only = PatternView::Exact(directory);
    assert(set.positives =~= seq![only]);
    assert(set.positives[0].matches(directory));
    lemma_directory_matches_descendants(only, directory, rest);
    assert(set.positives[0].matches(directory + "/"@ + rest));
}

/// Whether a value on its own selects a path, when `outcome` is what it means as a glob.
pub open spec fn alone_selects_with(value: Seq<char>, outcome: GlobOutcome, path: Seq<char>) -> bool {
    compiled_with(seq![value], seq![outcome]) matches Ok(set) && set.selects(path)
}

/// Whether a value on its own selects a path.
pub open spec fn alone_selects(value: Seq<char>, path: Seq<char>) -> bool {
    compiled(seq![value]) matches Ok(set) && set.selects(path)
}

/// Whether no value is negated twice: what such a value takes away has no meaning on its
/// own.
pub open spec fn negated_once(values: Seq<Seq<char>>) -> bool {
    forall|i: int|
        0 <= i < values.len() && is_negative(#[trigger] values[i]) ==> !is_negative(
            body(values[i]),
        )
}

proof fn lemma_alone(value: Seq<char>, outcome: GlobOutcome, path: Seq<char>)
    requires
        !is_negative(value),
    ensures
        alone_selects_with(value, outcome, path) <==> (meaning(
            cleaned(value),
            outcome,
        ) matches Ok(only) && only.matches(path)),
{
    reveal_with_fuel(compiled_with, 2);
    let values = seq![value];
    let outcomes = seq![outcome];
    assert(values.drop_last() =~= Seq::empty());
    assert(outcomes.drop_last() =~= Seq::empty());
    if meaning(cleaned(value), outcome) is Ok {
        let only = meaning(cleaned(value), outcome)->Ok_0;
        let set = compiled_with(values, outcomes)->Ok_0;
        assert(set.positives =~= seq![only]);
        assert(set.negatives =~= Seq::empty());
        assert(set.positives[0] == only);
    }
}

/// One side of a set matches a path exactly when one of its values does on its own, and is
/// empty exactly when it has no values.
proof fn lemma_side(
    values: Seq<Seq<char>>,
    outcomes: Seq<GlobOutcome>,
    negative: bool,
    path: Seq<char>,
)
    requires
        outcomes.len() == values.len(),
        compiled_with(values, outcomes) is Ok,
        negated_once(values),
    ensures
        ({
            let set = compiled_with(values, outcomes)->Ok_0;
            let side = if negative {
                set.negatives
            } else {
                set.positives
            };
            &&& any_matches(side, path) <==> exists|i: int|
                0 <= i < values.len() && is_negative(#[trigger] values[i]) == negative
                    && alone_selects_with(body(values[i]), outcomes[i], path)
            &&& side.len() == 0 <==> forall|i: int|
                0 <= i < values.len() ==> is_negative(#[trigger] values[i]) != negative
        }),
    decreases values.len(),
{
    if values.len() > 0 {
        let n = values.len() - 1;
        let front = values.drop_last();
        let rest = outcomes.drop_last();
        assert(forall|i: int| 0 <= i < front.len() ==> #[trigger] front[i] == values[i]);
        lemma_side(front, rest, negative, path);
        let last = values[n];
        lemma_alone(body(last), outcomes[n], path);
        let before = compiled_with(front, rest)->Ok_0;
        let set = compiled_with(values, outcomes)->Ok_0;
        let old_side = if negative {
            before.negatives
        } else {
            before.positives
        };
        let side = if negative {
            set.negatives
        } else {
            set.positives
        };
        let only = meaning(cleaned(body(last)), outcomes[n])->Ok_0;
        if is_negative(last) == negative {
            assert(side == old_side.push(only));
        } else {
            assert(side == old_side);
        }
        if any_matches(side, path) {
            let k = choose|k: int| 0 <= k < side.len() && (#[trigger] side[k]).matches(path);
            if k < old_side.len() {
                assert(old_side[k].matches(path));
                let i = choose|i: int|
                    0 <= i < front.len() && is_negative(#[trigger] front[i]) == negative
                        && alone_selects_with(body(front[i]), rest[i], path);
                assert(is_negative(values[i]) == negative);
            } else {
                assert(is_negative(values[n]) == negative);
            }
        }
        if exists|i: int|
            0 <= i < values.len() && is_negative(#[trigger] values[i]) == negative
                && alone_selects_with(body(values[i]), outcomes[i], path) {
            let i = choose|i: int|
                0 <= i < values.len() && is_negative(#[trigger] values[i]) == negative
                    && alone_selects_with(body(values[i]), outcomes[i], path);
            if i < n {
                assert(is_negative(front[i]) == negative);
                assert(alone_selects_with(body(front[i]), rest[i], path));
                let k = choose|k: int|
                    0 <= k < old_side.len() && (#[trigger] old_side[k]).matches(path);
                assert(side[k].matches(path));
            } else {
                assert(side[side.len() - 1].matches(path));
            }
        }
        if side.len() == 0 {
            assert forall|i: int| 0 <= i < values.len() implies is_negative(#[trigger] values[i])
                != negative by {
                if i < n {
                    assert(is_negative(front[i]) != negative);
                }
            }
        }
        if forall|i: int| 0 <= i < values.len() ==> is_negative(#[trigger] values[i]) != negative {
            assert(is_negative(values[n]) != negative);
            assert forall|i: int| 0 <= i < front.len() implies is_negative(#[trigger] front[i])
                != negative by {
                assert(is_negative(values[i]) != negative);
            }
        }
    }
}

/// Whatever the values mean as globs, a set selects as its values do, each on its own: a
/// path is selected when some positive value selects it, or there is none, and what stands
/// behind the `!` of no negative value does.
pub proof fn lemma_set_selects_as_its_values_do_alone(
    values: Seq<Seq<char>>,
    outcomes: Seq<GlobOutcome>,
    path: Seq<char>,
)
    requires
        outcomes.len() == values.len(),
        compiled_with(values, outcomes) is Ok,
        negated_once(values),
    ensures
        compiled_with(values, outcomes)->Ok_0.selects(path) <==> {
            &&& (forall|i: int| 0 <= i < values.len() ==> is_negative(#[trigger] values[i])) || (
            exists|i: int|
                0 <= i < values.len() && !is_negative(#[trigger] values[i])
                    && alone_selects_with(values[i], outcomes[i], path))
            &&& !(exists|i: int|
                0 <= i < values.len() && is_negative(#[trigger] values[i]) && alone_selects_with(
                    body(values[i]),
                    outcomes[i],
                    path,
                ))
        },
{
    lemma_side(values, outcomes, false, path);
    lemma_side(values, outcomes, true, path);
}

/// A set of values that mean the same on every machine selects as its values do, each on
/// its own.
pub proof fn lemma_set_selects_as_its_values(values: Seq<Seq<char>>, path: Seq<char>)
    requires
        compiled(values) is Ok,
        negated_once(values),
    ensures
        compiled(values)->Ok_0.selects(path) <==> {
            &&& (forall|i: int| 0 <= i < values.len() ==> is_negative(#[trigger] values[i])) || (
            exists|i: int|
                0 <= i < values.len() && !is_negative(#[trigger] values[i]) && alone_selects(
                    values[i],
                    path,
                ))
            &&& !(exists|i: int|
                0 <= i < values.len() && is_negative(#[trigger] values[i]) && alone_selects(
                    body(values[i]),
                    path,
                ))
        },
{
    let outcomes = named_outcomes(values);
    lemma_named_outcomes(values);
    lemma_set_selects_as_its_values_do_alone(values, outcomes, path);
    assert forall|i: int| 0 <= i < values.len() implies alone_selects(
        body(#[trigger] values[i]),
        path,
    ) == alone_selects_with(body(values[i]), outcomes[i], path) by {
        let single = seq![body(values[i])];
        lemma_named_outcomes(single);
        assert(body(body(values[i])) == body(values[i]));
        assert(named_outcomes(single) =~= seq![outcomes[i]]);
    }
}

proof fn lemma_named_outcomes(values: Seq<Seq<char>>)
    ensures
        compiled_with(values, named_outcomes(values)) == compiled(values),
    decreases values.len(),
{
    if values.len() > 0 {
        lemma_named_outcomes(values.drop_last());
        assert(named_outcomes(values).drop_last() =~= named_outcomes(values.drop_last()));
    }
}

/// A pattern without wildcards matches its own path and what stands below it, and nothing
/// else: not a path that begins with it in another way, nor one that only ends with it. It
/// does so on every machine.
pub proof fn lemma_exact_pattern_matches_itself_and_below(expected: Seq<char>, path: Seq<char>)
    ensures
        PatternView::Exact(expected).matches(path) <==> path == expected || (expected
            + seq!['/']).is_prefix_of(path),
        PatternView::Exact(expected).surely_matches(path) <==> path == expected || (expected
            + seq!['/']).is_prefix_of(path),
        PatternView::Exact(expected).perhaps_matches(path) <==> path == expected || (expected
            + seq!['/']).is_prefix_of(path),
{
    reveal_strlit("/");
    assert("/"@ =~= seq!['/']);
    lemma_directories_above(path, expected);
}

/// A glob matches a path exactly if it matches the path itself or what stands before one of
/// its slashes. It does so on every machine if the path has no backslash.
pub proof fn lemma_glob_matches_a_path_or_a_directory_above(
    paths: Set<Seq<char>>,
    path: Seq<char>,
)
    ensures
        PatternView::Glob(paths).matches(path) <==> paths.contains(path) || exists|n: int|
            0 <= n < path.len() && #[trigger] path[n] == '/' && paths.contains(path.take(n)),
        !path.contains('\\') ==> PatternView::Glob(paths).surely_matches(path)
            == PatternView::Glob(paths).matches(path),
        !path.contains('\\') ==> PatternView::Glob(paths).perhaps_matches(path)
            == PatternView::Glob(paths).matches(path),
{
    let above = directories_above(path);
    if exists|i: int| 0 <= i < above.len() && paths.contains(#[trigger] above[i]) {
        let i = choose|i: int| 0 <= i < above.len() && paths.contains(#[trigger] above[i]);
        lemma_directory_above(path, i);
        let n = above[i].len() as int;
        assert(path[n] == '/');
        assert(path.take(n) =~= above[i]);
    }
    if exists|n: int| 0 <= n < path.len() && #[trigger] path[n] == '/' && paths.contains(
        path.take(n),
    ) {
        let n = choose|n: int|
            0 <= n < path.len() && #[trigger] path[n] == '/' && paths.contains(path.take(n));
        let directory = path.take(n);
        assert(path.subrange(0, n) =~= directory);
        lemma_directories_above(path, directory);
        let i = choose|i: int| 0 <= i < above.len() && above[i] == directory;
        assert(paths.contains(above[i]));
    }
}

/// A set selects a path exactly if one of its positive patterns matches it, or it has none,
/// and none of its negative patterns does. For a path without a backslash, and for a set
/// without globs, there is no other answer.
pub proof fn lemma_selection_is_inclusion_without_exclusion(
    set: PatternSetView,
    path: Seq<char>,
    verdict: bool,
)
    ensures
        set.selects(path) <==> {
            &&& set.positives.len() == 0 || exists|i: int|
                0 <= i < set.positives.len() && (#[trigger] set.positives[i]).matches(path)
            &&& forall|i: int|
                0 <= i < set.negatives.len() ==> !(#[trigger] set.negatives[i]).matches(path)
        },
        !path.contains('\\') && set.allows(path, verdict) ==> verdict == set.selects(path),
        !path.contains('\\') ==> set.decides(path),
        (forall|i: int| 0 <= i < set.positives.len() ==> #[trigger] set.positives[i] is Exact) && (
        forall|i: int| 0 <= i < set.negatives.len() ==> #[trigger] set.negatives[i] is Exact)
            ==> set.decides(path) && (set.allows(path, verdict) ==> verdict == set.selects(path)),
{
    lemma_selection_is_bounded(set, path);
    if any_matches(set.negatives, path) {
        let i = choose|i: int|
            0 <= i < set.negatives.len() && (#[trigger] set.negatives[i]).matches(path);
        assert(set.negatives[i].matches(path));
    }
}

/// One more value goes to the end of one side of a set: to what is taken away if it begins
/// with an exclamation mark, to what is added otherwise. The other side stays.
pub proof fn lemma_exclamation_marks_take_away(
    values: Seq<Seq<char>>,
    set: PatternSetView,
    value: Seq<char>,
    one: PatternView,
)
    requires
        compiled(values) == Ok::<PatternSetView, Seq<char>>(set),
        pattern(value) == Ok::<PatternView, Seq<char>>(one),
    ensures
        compiled(values.push(seq!['!'] + value)) == Ok::<PatternSetView, Seq<char>>(
            PatternSetView { positives: set.positives, negatives: set.negatives.push(one) },
        ),
        value.len() > 0 && value[0] != '!' ==> compiled(values.push(value)) == Ok::<
            PatternSetView,
            Seq<char>,
        >(PatternSetView { positives: set.positives.push(one), negatives: set.negatives }),
{
    let negative = seq!['!'] + value;
    assert(negative.drop_first() =~= value);
    assert(values.push(negative).drop_last() =~= values);
    assert(values.push(value).drop_last() =~= values);
}

/// A pattern is a glob exactly if it holds an asterisk, a question mark, or an opening
/// bracket or brace.
pub proof fn lemma_globs_have_wildcards(value: Seq<char>)
    ensures
        is_glob(value) <==> value.contains('*') || value.contains('?') || value.contains('[')
            || value.contains('{'),
{
    if is_glob(value) {
        let i = choose|i: int| 0 <= i < value.len() && is_metacharacter(#[trigger] value[i]);
        assert(value.contains(value[i]));
    }
    if value.contains('*') || value.contains('?') || value.contains('[') || value.contains('{') {
        let i = choose|i: int|
            0 <= i < value.len() && (value[i] == '*' || value[i] == '?' || value[i] == '['
                || value[i] == '{');
        assert(is_metacharacter(value[i]));
    }
}

/// Of a pattern only a leading `./` and the slashes at its end are dropped.
pub proof fn lemma_only_decoration_is_cleaned(value: Seq<char>)
    ensures
        cleaned(value).len() > 0 ==> cleaned(value).last() != '/',
        exists|slashes: Seq<char>|
            {
                &&& forall|i: int| 0 <= i < slashes.len() ==> #[trigger] slashes[i] == '/'
                &&& value == (if value.len() >= 2 && value[0] == '.' && value[1] == '/' {
                    seq!['.', '/']
                } else {
                    Seq::empty()
                }) + #[trigger] (cleaned(value) + slashes)
            },
{
    reveal_strlit("./");
    assert("./"@ =~= seq!['.', '/']);
    let dotted = value.len() >= 2 && value[0] == '.' && value[1] == '/';
    if dotted {
        assert(value.subrange(0, 2) =~= "./"@);
    }
    if "./"@.is_prefix_of(value) {
        assert(value.subrange(0, 2)[0] == '.');
        assert(value.subrange(0, 2)[1] == '/');
    }
    let rest = if dotted {
        value.skip(2)
    } else {
        value
    };
    text::lemma_only_trailing_characters_are_cut(rest, '/');
    let slashes = rest.skip(cleaned(value).len() as int);
    assert(rest =~= cleaned(value) + slashes);
    assert(value =~= (if dotted {
        seq!['.', '/']
    } else {
        Seq::empty()
    }) + (cleaned(value) + slashes));
}

/// A cleaned pattern is refused exactly if it is empty, begins with a slash, has a part that
/// is one or two dots, or is a glob that cannot be compiled. Otherwise it stands for its own
/// path, or for what it matches as a glob.
pub proof fn lemma_patterns_stay_inside(value: Seq<char>, outcome: GlobOutcome)
    ensures
        ({
            let wild = value.contains('*') || value.contains('?') || value.contains('[')
                || value.contains('{');
            let strays = exists|i: int, j: int| #[trigger]
                text::is_part(value, '/', i, j) && (value.subrange(i, j) == seq!['.']
                    || value.subrange(i, j) == seq!['.', '.']);
            &&& value.len() == 0 ==> meaning(value, outcome) == Err::<PatternView, Seq<char>>(
                "download patterns cannot be empty"@,
            )
            &&& value.len() > 0 && value[0] == '/' ==> meaning(value, outcome) == Err::<
                PatternView,
                Seq<char>,
            >("pattern "@ + text::debug_text(value) + " must be repository-relative"@)
            &&& value.len() > 0 && value[0] != '/' && strays ==> meaning(value, outcome) == Err::<
                PatternView,
                Seq<char>,
            >("pattern "@ + text::debug_text(value) + " contains an unsafe path component"@)
            &&& value.len() > 0 && value[0] != '/' && !strays && !wild ==> meaning(value, outcome)
                == Ok::<PatternView, Seq<char>>(PatternView::Exact(value))
            &&& value.len() > 0 && value[0] != '/' && !strays && wild ==> meaning(value, outcome)
                == (match outcome {
                Ok(paths) => Ok::<PatternView, Seq<char>>(PatternView::Glob(paths)),
                Err(reason) => Err::<PatternView, Seq<char>>(
                    "invalid glob pattern "@ + text::debug_text(value) + ": "@ + reason,
                ),
            })
        }),
{
    reveal_strlit(".");
    reveal_strlit("..");
    assert("."@ =~= seq!['.']);
    assert(".."@ =~= seq!['.', '.']);
    lemma_globs_have_wildcards(value);
    text::lemma_parts_are_enclosed(value, '/');
    let parts = text::split(value, '/');
    if exists|k: int| 0 <= k < parts.len() && is_relative_part(#[trigger] parts[k]) {
        let k = choose|k: int| 0 <= k < parts.len() && is_relative_part(#[trigger] parts[k]);
        assert(text::is_enclosed(parts[k], value, '/'));
    }
    if exists|i: int, j: int| #[trigger]
        text::is_part(value, '/', i, j) && (value.subrange(i, j) == seq!['.'] || value.subrange(
            i,
            j,
        ) == seq!['.', '.']) {
        let (i, j) = choose|i: int, j: int| #[trigger]
            text::is_part(value, '/', i, j) && (value.subrange(i, j) == seq!['.']
                || value.subrange(i, j) == seq!['.', '.']);
        let k = choose|k: int| 0 <= k < parts.len() && parts[k] == value.subrange(i, j);
        assert(is_relative_part(parts[k]));
    }
}

/// A path that is given as it is, behind `./` or with slashes at its end selects itself and
/// what stands below it, and nothing else; behind an exclamation mark, everything but those.
pub proof fn lemma_one_path_selects_itself_and_below(
    value: Seq<char>,
    slashes: Seq<char>,
    path: Seq<char>,
)
    requires
        value.len() > 0,
        value[0] != '/',
        value[0] != '!',
        value.last() != '/',
        !(value.len() >= 2 && value[0] == '.' && value[1] == '/'),
        !value.contains('*') && !value.contains('?') && !value.contains('[') && !value.contains(
            '{',
        ),
        forall|i: int, j: int| #[trigger]
            text::is_part(value, '/', i, j) ==> value.subrange(i, j) != seq!['.']
                && value.subrange(i, j) != seq!['.', '.'],
        forall|i: int| 0 <= i < slashes.len() ==> #[trigger] slashes[i] == '/',
    ensures
        ({
            let chosen = path == value || (value + seq!['/']).is_prefix_of(path);
            &&& compiled(seq![value + slashes]) matches Ok(set) && set.selects(path) == chosen
            &&& compiled(seq![seq!['.', '/'] + value + slashes]) matches Ok(set) && set.selects(path)
                == chosen
            &&& compiled(seq![seq!['!'] + (value + slashes)]) matches Ok(set) && set.selects(path)
                == !chosen
        }),
{
    let plain = value + slashes;
    let dotted = seq!['.', '/'] + value + slashes;
    lemma_cleaned_is(plain, value, slashes);
    lemma_cleaned_is(dotted, value, slashes);
    lemma_patterns_stay_inside(value, glob(value));
    let only = PatternView::Exact(value);
    assert(pattern(plain) == Ok::<PatternView, Seq<char>>(only));
    assert(pattern(dotted) == Ok::<PatternView, Seq<char>>(only));
    let nothing = Seq::<Seq<char>>::empty();
    let none = PatternSetView { positives: Seq::empty(), negatives: Seq::empty() };
    lemma_exclamation_marks_take_away(nothing, none, plain, only);
    lemma_exclamation_marks_take_away(nothing, none, dotted, only);
    assert(nothing.push(plain) =~= seq![plain]);
    assert(nothing.push(dotted) =~= seq![dotted]);
    assert(nothing.push(seq!['!'] + plain) =~= seq![seq!['!'] + plain]);
    assert(plain[0] == value[0]);
    lemma_exact_pattern_matches_itself_and_below(value, path);
    let positive = PatternSetView { positives: Seq::empty().push(only), negatives: Seq::empty() };
    let negative = PatternSetView { positives: Seq::empty(), negatives: Seq::empty().push(only) };
    assert(positive.positives[0] == only);
    assert(negative.negatives[0] == only);
    assert(any_matches(positive.positives, path) == only.matches(path));
    assert(any_matches(negative.negatives, path) == only.matches(path));
}

proof fn lemma_cleaned_is(whole: Seq<char>, value: Seq<char>, slashes: Seq<char>)
    requires
        value.len() > 0,
        value[0] != '/',
        value.last() != '/',
        !(value.len() >= 2 && value[0] == '.' && value[1] == '/'),
        forall|i: int, j: int| #[trigger]
            text::is_part(value, '/', i, j) ==> value.subrange(i, j) != seq!['.'],
        forall|i: int| 0 <= i < slashes.len() ==> #[trigger] slashes[i] == '/',
        whole == value + slashes || whole == seq!['.', '/'] + value + slashes,
    ensures
        cleaned(whole) == value,
{
    reveal_strlit("./");
    assert("./"@ =~= seq!['.', '/']);
    if value.len() == 1 && value[0] == '.' {
        assert(value.subrange(0, 1) =~= seq!['.']);
        assert(text::is_part(value, '/', 0, 1));
    }
    let rest = if "./"@.is_prefix_of(whole) {
        whole.skip(2)
    } else {
        whole
    };
    if whole == value + slashes {
        if "./"@.is_prefix_of(whole) {
            assert(whole.subrange(0, 2)[0] == whole[0]);
            assert(whole.subrange(0, 2)[1] == whole[1]);
        }
        assert(rest =~= value + slashes);
    } else {
        assert(whole.subrange(0, 2) =~= "./"@);
        assert(rest =~= value + slashes);
    }
    text::lemma_only_trailing_characters_are_cut(rest, '/');
    let cut = text::without_trailing(rest, '/');
    assert(rest[value.len() - 1] == value.last());
    assert(cut.len() >= value.len());
    if cut.len() > value.len() {
        assert(cut.last() == rest[cut.len() - 1]);
        assert(rest[cut.len() - 1] == slashes[cut.len() - 1 - value.len()]);
    }
    assert(cut =~= value);
}

/// A value without a backslash means the same on every machine: only what `globset` makes of
/// it can be its outcome.
pub proof fn lemma_values_without_backslashes_are_portable(value: Seq<char>, outcome: GlobOutcome)
    requires
        !value.contains('\\'),
    ensures
        is_portable(value),
        possible(value, outcome) ==> outcome == glob(value),
{
    lemma_only_decoration_is_cleaned(body(value));
    let inner = cleaned(body(value));
    if inner.contains('\\') {
        let slashes = choose|slashes: Seq<char>|
            {
                &&& forall|i: int| 0 <= i < slashes.len() ==> #[trigger] slashes[i] == '/'
                &&& body(value) == (if body(value).len() >= 2 && body(value)[0] == '.' && body(
                    value,
                )[1] == '/' {
                    seq!['.', '/']
                } else {
                    Seq::empty()
                }) + #[trigger] (inner + slashes)
            };
        let k = choose|k: int| 0 <= k < inner.len() && inner[k] == '\\';
        let lead = body(value).len() - inner.len() - slashes.len();
        assert(body(value)[lead + k] == '\\');
        if is_negative(value) {
            assert(value[lead + k + 1] == '\\');
        }
        assert(value.contains('\\'));
    }
}

/// Characters that open or close nothing and escape nothing add no level to a scan and break
/// nothing, however many there are.
proof fn lemma_plain_characters_open_nothing(start: Seq<char>, rest: Seq<char>, escapes: bool)
    requires
        !scanned(start, escapes).broken,
        scanned(start, escapes).place == GlobPlace::Outside,
        scanned(start, escapes).levels.len() > 0,
        forall|i: int|
            0 <= i < rest.len() ==> (#[trigger] rest[i]) != '{' && rest[i] != '}' && rest[i] != '['
                && rest[i] != '\\' && rest[i] != ',',
    ensures
        ({
            let before = scanned(start, escapes);
            let after = scanned(start + rest, escapes);
            &&& !after.broken
            &&& after.place == GlobPlace::Outside
            &&& after.levels.len() == before.levels.len()
            &&& after.levels.drop_last() == before.levels.drop_last()
            &&& after.levels.last().height <= before.levels.last().height
                || after.levels.last().height <= 4
        }),
    decreases rest.len(),
{
    if rest.len() == 0 {
        assert(start + rest =~= start);
    } else {
        lemma_plain_characters_open_nothing(start, rest.drop_last(), escapes);
        assert((start + rest).drop_last() =~= start + rest.drop_last());
        assert((start + rest).last() == rest[rest.len() - 1]);
        let before = scanned(start + rest.drop_last(), escapes);
        let after = scanned(start + rest, escapes);
        assert(after == advanced_outside(before, rest.last(), escapes));
        assert(after.levels.drop_last() =~= before.levels.drop_last());
    }
}

/// A glob of characters, question marks and stars is manageable exactly if it is not too
/// large: every byte counts for 80 and every star for 42 more, up to 10,400,000.
pub proof fn lemma_plain_globs_are_manageable(value: Seq<char>)
    requires
        is_glob(cleaned(body(value))),
        forall|i: int|
            0 <= i < cleaned(body(value)).len() ==> (#[trigger] cleaned(body(value))[i]) != '{'
                && cleaned(body(value))[i] != '}' && cleaned(body(value))[i] != '['
                && cleaned(body(value))[i] != '\\' && cleaned(body(value))[i] != ',',
    ensures
        manageable(value) <==> vstd::utf8::encode_utf8(cleaned(body(value))).len() * 80
            + cleaned(body(value)).filter(|c: char| c == '*').len() * 42 <= 10_400_000,
{
    let pattern = cleaned(body(value));
    let none = Seq::<char>::empty();
    assert(none + pattern =~= pattern);
    assert forall|escapes: bool| true implies (!(#[trigger] scanned(pattern, escapes)).broken
        && scanned(pattern, escapes).place == GlobPlace::Outside && scanned(
        pattern,
        escapes,
    ).levels.len() == 1 && scanned(pattern, escapes).levels[0].height <= 4) by {
        lemma_plain_characters_open_nothing(none, pattern, escapes);
    }
    assert(!scanned(pattern, true).broken);
    assert(!scanned(pattern, false).broken);
    lemma_counted_characters_are_kept(pattern, '*');
}

/// How often a character stands in a text is how many are left if the others are taken away.
pub proof fn lemma_counted_characters_are_kept(text: Seq<char>, c: char)
    ensures
        count(text, c) == text.filter(|d: char| d == c).len(),
    decreases text.len(),
{
    reveal(Seq::filter);
    if text.len() > 0 {
        lemma_counted_characters_are_kept(text.drop_last(), c);
    }
}

/// Behind plain characters an opening brace, an opening bracket or a backslash that escapes
/// leaves a glob unfinished, and a closing brace spoils it. A group or a class that is
/// closed leaves it whole, and so does a backslash that is an ordinary character.
pub proof fn lemma_globs_close_what_they_open(
    start: Seq<char>,
    inner: Seq<char>,
    c: char,
    escapes: bool,
)
    requires
        forall|i: int|
            0 <= i < start.len() ==> (#[trigger] start[i]) != '{' && start[i] != '}' && start[i]
                != '[' && start[i] != '\\' && start[i] != ',',
        forall|i: int|
            0 <= i < inner.len() ==> (#[trigger] inner[i]) != '{' && inner[i] != '}' && inner[i]
                != '[' && inner[i] != '\\' && inner[i] != ',',
        c != '!' && c != '^',
    ensures
        !is_malformed(scanned(start, escapes)),
        is_malformed(scanned(start.push('{') + inner, escapes)),
        !is_malformed(scanned((start.push('{') + inner).push('}'), escapes)),
        is_malformed(scanned(start.push('}'), escapes)),
        is_malformed(scanned(start.push('['), escapes)),
        is_malformed(scanned(start.push('[').push(c), escapes)),
        !is_malformed(scanned(start.push('[').push(c).push(']'), escapes)),
        !is_malformed(scanned(start.push('[').push('!').push(c).push(']'), escapes)),
        is_malformed(scanned(start.push('\\'), escapes)) <==> escapes,
        !is_malformed(scanned(start.push('\\').push('a'), escapes)),
        !is_malformed(scanned(start.push('\\').push('['), escapes)) <==> escapes,
{
    let none = Seq::<char>::empty();
    assert(none + start =~= start);
    lemma_plain_characters_open_nothing(none, start, escapes);
    let opened = start.push('{');
    assert(opened.drop_last() =~= start);
    lemma_plain_characters_open_nothing(opened, inner, escapes);
    let grouped = (opened + inner).push('}');
    assert(grouped.drop_last() =~= opened + inner);
    assert(start.push('}').drop_last() =~= start);
    let class = start.push('[');
    assert(class.drop_last() =~= start);
    assert(class.push(c).drop_last() =~= class);
    assert(class.push(c).push(']').drop_last() =~= class.push(c));
    assert(class.push('!').drop_last() =~= class);
    assert(class.push('!').push(c).drop_last() =~= class.push('!'));
    assert(class.push('!').push(c).push(']').drop_last() =~= class.push('!').push(c));
    assert(scanned(class.push('!'), escapes).place == GlobPlace::Negated);
    assert(scanned(class.push('!').push(c), escapes).place == GlobPlace::Inside);
    assert(scanned(class.push('!').push(c).push(']'), escapes).place == GlobPlace::Outside);
    let escaped = start.push('\\');
    assert(escaped.drop_last() =~= start);
    assert(escaped.push('a').drop_last() =~= escaped);
    assert(escaped.push('[').drop_last() =~= escaped);
}

} // verus!
