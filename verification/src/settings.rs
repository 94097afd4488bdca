use vstd::prelude::*;
use vstd::string::StrSliceExecFns;

use crate::errors::PuzzleError;
use crate::heuristic::Heuristic;
use crate::numfmt::{all_digits, dec_val, parse_usize};
use crate::search::Algorithm;

verus! {

/// Largest board edge the command line accepts.
pub const MAX_PUZZLE_SIZE: usize = 100;

/// Where the start board comes from: a generated board of the given size, or
/// a textual description to parse.
#[derive(Debug, PartialEq)]
pub enum PuzzleSettings {
    Size(usize),
    TextPath(String),
}

/// ASCII whitespace, for trimming numeric arguments.
pub open spec fn is_space_char(c: char) -> bool {
    c == ' ' || c == '\t' || c == '\n' || c == '\r' || c as u32 == 11 || c as u32 == 12
}

/// The index of the first non-space character at or after `i`.
pub open spec fn first_nonspace(s: Seq<char>, i: int) -> int
    decreases s.len() - i,
{
    if i < 0 || i >= s.len() {
        s.len() as int
    } else if is_space_char(s[i]) {
        first_nonspace(s, i + 1)
    } else {
        i
    }
}

/// One past the index of the last non-space character before `j`.
pub open spec fn last_nonspace(s: Seq<char>, j: int) -> int
    decreases j,
{
    if j <= 0 {
        0
    } else if is_space_char(s[j - 1]) {
        last_nonspace(s, j - 1)
    } else {
        j
    }
}

/// The string with its leading and trailing whitespace removed.
pub open spec fn trim_spec(s: Seq<char>) -> Seq<char> {
    let a = first_nonspace(s, 0);
    if a == s.len() {
        Seq::empty()
    } else {
        s.subrange(a, last_nonspace(s, s.len() as int))
    }
}

/// Equality of two strings.
pub fn str_eq(a: &str, b: &str) -> (r: bool)
    ensures
        r == (a@ == b@),
{
    let la = a.unicode_len();
    let lb = b.unicode_len();
    if la != lb {
        return false;
    }
    let mut i: usize = 0;
    while i < la
        invariant
            la == a@.len(),
            la == b@.len(),
            i <= la,
            forall|j: int| 0 <= j < i ==> a@[j] == b@[j],
        decreases la - i,
    {
        if a.get_char(i) != b.get_char(i) {
            return false;
        }
        i += 1;
    }
    proof {
        assert(a@ =~= b@);
    }
    true
}

/// The index of the first non-space character at or after `i`.
fn skip_spaces(s: &str, i: usize) -> (r: usize)
    requires
        i <= s@.len(),
    ensures
        r as int == first_nonspace(s@, i as int),
        i <= r <= s@.len(),
        (r as int) < s@.len() ==> !is_space_char(s@[r as int]),
    decreases s@.len() - i,
{
    if i == s.unicode_len() {
        return i;
    }
    let c = s.get_char(i);
    let sp = c == ' ' || c == '\t' || c == '\n' || c == '\r' || c as u32 == 11 || c as u32 == 12;
    if sp {
        skip_spaces(s, i + 1)
    } else {
        i
    }
}

/// One past the index of the last non-space character before `j`.
fn scan_back(s: &str, j: usize) -> (r: usize)
    requires
        j <= s@.len(),
    ensures
        r as int == last_nonspace(s@, j as int),
        r <= j,
    decreases j,
{
    if j == 0 {
        return 0;
    }
    let c = s.get_char(j - 1);
    let sp = c == ' ' || c == '\t' || c == '\n' || c == '\r' || c as u32 == 11 || c as u32 == 12;
    if sp {
        scan_back(s, j - 1)
    } else {
        j
    }
}

proof fn lemma_last_nonspace_lb(s: Seq<char>, lo: int, j: int)
    requires
        0 <= lo < j <= s.len(),
        !is_space_char(s[lo]),
    ensures
        lo + 1 <= last_nonspace(s, j) <= j,
    decreases j,
{
    if is_space_char(s[j - 1]) {
        lemma_last_nonspace_lb(s, lo, j - 1);
    }
}

/// Remove leading and trailing whitespace.
fn trim(s: &str) -> (r: &str)
    ensures
        r@ == trim_spec(s@),
{
    let len = s.unicode_len();
    let lo = skip_spaces(s, 0);
    if lo == len {
        let r = "";
        proof {
            reveal_strlit("");
            assert(r@ =~= trim_spec(s@));
        }
        return r;
    }
    proof {
        lemma_last_nonspace_lb(s@, lo as int, len as int);
    }
    let hi = scan_back(s, len);
    s.substring_char(lo, hi)
}

/// The validated command-line choices.
#[derive(Debug, PartialEq)]
pub struct Settings {
    pub puzzle_settings: PuzzleSettings,
    pub algorithm: Option<Algorithm>,
    pub heuristic: Heuristic,
    pub timeout: Option<u64>,
    pub verbose: bool,
}

impl Settings {
    pub fn new(
        puzzle_settings: PuzzleSettings,
        algorithm: Option<Algorithm>,
        heuristic: Heuristic,
        timeout: Option<u64>,
        verbose: bool,
    ) -> (r: Settings)
        ensures
            r.puzzle_settings == puzzle_settings,
            r.algorithm == algorithm,
            r.heuristic == heuristic,
            r.timeout == timeout,
            r.verbose == verbose,
    {
        Settings { puzzle_settings, algorithm, heuristic, timeout, verbose }
    }

    /// The state before any argument: no source, no algorithm, no heuristic,
    /// no timeout, not verbose.
    pub fn new_default() -> (r: Settings)
        ensures
            r.puzzle_settings == PuzzleSettings::Size(0usize),
            r.algorithm.is_none(),
            r.heuristic == Heuristic::NotSet,
            r.timeout.is_none(),
            r.verbose == false,
    {
        Settings {
            puzzle_settings: PuzzleSettings::Size(0),
            algorithm: None,
            heuristic: Heuristic::NotSet,
            timeout: None,
            verbose: false,
        }
    }

    /// Choose the algorithm by name; a second choice or an unknown name is
    /// an `InvalidOption`.
    pub fn set_algorithm(&mut self, algorithm: &str) -> (r: Result<(), PuzzleError>)
        ensures
            final(self).puzzle_settings == old(self).puzzle_settings,
            final(self).heuristic == old(self).heuristic,
            final(self).timeout == old(self).timeout,
            final(self).verbose == old(self).verbose,
            r.is_ok() <==> (old(self).algorithm.is_none() && (algorithm@ == "astar"@ || algorithm@
                == "uniform_cost"@ || algorithm@ == "greedy"@)),
            match r {
                Ok(()) => {
                    &&& (algorithm@ == "astar"@ ==> final(self).algorithm == Some(Algorithm::AStar))
                    &&& (algorithm@ == "uniform_cost"@ ==> final(self).algorithm == Some(
                        Algorithm::UniformCost,
                    ))
                    &&& (algorithm@ == "greedy"@ ==> final(self).algorithm == Some(
                        Algorithm::Greedy,
                    ))
                },
                Err(e) => e == PuzzleError::InvalidOption && final(self).algorithm == old(
                    self,
                ).algorithm,
            },
    {
        proof {
            reveal_strlit("astar");
            reveal_strlit("uniform_cost");
            reveal_strlit("greedy");
            assert("astar"@.len() == 5 && "uniform_cost"@.len() == 12 && "greedy"@.len() == 6);
        }
        if self.algorithm.is_some() {
            return Err(PuzzleError::InvalidOption);
        }
        if str_eq(algorithm, "astar") {
            self.algorithm = Some(Algorithm::AStar);
        } else if str_eq(algorithm, "uniform_cost") {
            self.algorithm = Some(Algorithm::UniformCost);
        } else if str_eq(algorithm, "greedy") {
            self.algorithm = Some(Algorithm::Greedy);
        } else {
            return Err(PuzzleError::InvalidOption);
        }
        Ok(())
    }

    /// Choose the heuristic by name; a second choice or an unknown name is
    /// an `InvalidOption`.
    pub fn set_heuristic(&mut self, heuristic: &str) -> (r: Result<(), PuzzleError>)
        ensures
            final(self).puzzle_settings == old(self).puzzle_settings,
            final(self).algorithm == old(self).algorithm,
            final(self).timeout == old(self).timeout,
            final(self).verbose == old(self).verbose,
            r.is_ok() <==> (old(self).heuristic == Heuristic::NotSet && (heuristic@ == "manhattan"@
                || heuristic@ == "hamming"@ || heuristic@ == "linear_conflict"@ || heuristic@
                == "inversion_distance"@)),
            match r {
                Ok(()) => {
                    &&& (heuristic@ == "manhattan"@ ==> final(self).heuristic
                        == Heuristic::Manhattan)
                    &&& (heuristic@ == "hamming"@ ==> final(self).heuristic == Heuristic::Hamming)
                    &&& (heuristic@ == "linear_conflict"@ ==> final(self).heuristic
                        == Heuristic::LinearConflict)
                    &&& (heuristic@ == "inversion_distance"@ ==> final(self).heuristic
                        == Heuristic::InversionDistance)
                },
                Err(e) => e == PuzzleError::InvalidOption && final(self).heuristic == old(
                    self,
                ).heuristic,
            },
    {
        proof {
            reveal_strlit("manhattan");
            reveal_strlit("hamming");
            reveal_strlit("linear_conflict");
            reveal_strlit("inversion_distance");
            assert("manhattan"@.len() == 9 && "hamming"@.len() == 7 && "linear_conflict"@.len()
                == 15 && "inversion_distance"@.len() == 18);
        }
        match self.heuristic {
            Heuristic::NotSet => {},
            _ => {
                return Err(PuzzleError::InvalidOption);
            },
        }
        if str_eq(heuristic, "manhattan") {
            self.heuristic = Heuristic::Manhattan;
        } else if str_eq(heuristic, "hamming") {
            self.heuristic = Heuristic::Hamming;
        } else if str_eq(heuristic, "linear_conflict") {
            self.heuristic = Heuristic::LinearConflict;
        } else if str_eq(heuristic, "inversion_distance") {
            self.heuristic = Heuristic::InversionDistance;
        } else {
            return Err(PuzzleError::InvalidOption);
        }
        Ok(())
    }

    /// Set the timeout from a decimal number of seconds; zero, garbage or a
    /// second timeout is an `InvalidOption`.
    pub fn set_timeout(&mut self, timeout: &str) -> (r: Result<(), PuzzleError>)
        ensures
            final(self).puzzle_settings == old(self).puzzle_settings,
            final(self).algorithm == old(self).algorithm,
            final(self).heuristic == old(self).heuristic,
            final(self).verbose == old(self).verbose,
            r.is_ok() <==> (old(self).timeout.is_none() && trim_spec(timeout@).len() > 0
                && all_digits(trim_spec(timeout@)) && 0 < dec_val(trim_spec(timeout@))
                && dec_val(trim_spec(timeout@)) <= usize::MAX),
            match r {
                Ok(()) => final(self).timeout matches Some(t) && t as int == dec_val(
                    trim_spec(timeout@),
                ),
                Err(e) => e == PuzzleError::InvalidOption && final(self).timeout == old(
                    self,
                ).timeout,
            },
    {
        if self.timeout.is_some() {
            return Err(PuzzleError::InvalidOption);
        }
        let trimmed = trim(timeout);
        match parse_usize(trimmed) {
            Some(num) => {
                if num > 0 {
                    self.timeout = Some(num as u64);
                    Ok(())
                } else {
                    Err(PuzzleError::InvalidOption)
                }
            },
            None => Err(PuzzleError::InvalidOption),
        }
    }

    /// Take the positional argument as a puzzle file path; it must end in
    /// `.txt`, and only one source may be given.
    pub fn set_text_path(&mut self, text_path: &str) -> (r: Result<(), PuzzleError>)
        ensures
            final(self).algorithm == old(self).algorithm,
            final(self).heuristic == old(self).heuristic,
            final(self).timeout == old(self).timeout,
            final(self).verbose == old(self).verbose,
            r.is_ok() <==> (old(self).puzzle_settings == PuzzleSettings::Size(0usize)
                && text_path@.len() >= 4 && text_path@.subrange(
                text_path@.len() - 4,
                text_path@.len() as int,
            ) == ".txt"@),
            match r {
                Ok(()) => final(self).puzzle_settings matches PuzzleSettings::TextPath(p) && p@
                    == text_path@,
                Err(e) => e == PuzzleError::InvalidOption && final(self).puzzle_settings == old(
                    self,
                ).puzzle_settings,
            },
    {
        match &self.puzzle_settings {
            PuzzleSettings::Size(n) => {
                if *n != 0 {
                    return Err(PuzzleError::InvalidOption);
                }
            },
            PuzzleSettings::TextPath(_) => {
                return Err(PuzzleError::InvalidOption);
            },
        }
        proof {
            reveal_strlit(".txt");
            assert(".txt"@.len() == 4);
        }
        let len = text_path.unicode_len();
        if len < 4 {
            return Err(PuzzleError::InvalidOption);
        }
        let ok = text_path.get_char(len - 4) == '.' && text_path.get_char(len - 3) == 't'
            && text_path.get_char(len - 2) == 'x' && text_path.get_char(len - 1) == 't';
        if !ok {
            proof {
                let s4 = text_path@.subrange(text_path@.len() - 4, text_path@.len() as int);
                assert(s4[0] == text_path@[text_path@.len() - 4]);
                assert(s4[1] == text_path@[text_path@.len() - 3]);
                assert(s4[2] == text_path@[text_path@.len() - 2]);
                assert(s4[3] == text_path@[text_path@.len() - 1]);
                assert(".txt"@[0] == '.' && ".txt"@[1] == 't' && ".txt"@[2] == 'x' && ".txt"@[3]
                    == 't');
                if s4 == ".txt"@ {
                    assert(false);
                }
            }
            return Err(PuzzleError::InvalidOption);
        }
        proof {
            assert(text_path@.subrange(text_path@.len() - 4, text_path@.len() as int) =~= ".txt"@);
        }
        self.puzzle_settings = PuzzleSettings::TextPath(text_path.to_owned());
        Ok(())
    }

    /// Take the positional argument as a generated-board size, between 2 and
    /// `MAX_PUZZLE_SIZE` − 1; only one source may be given.
    pub fn set_size(&mut self, size: &str) -> (r: Result<(), PuzzleError>)
        ensures
            final(self).algorithm == old(self).algorithm,
            final(self).heuristic == old(self).heuristic,
            final(self).timeout == old(self).timeout,
            final(self).verbose == old(self).verbose,
            r.is_ok() <==> (old(self).puzzle_settings == PuzzleSettings::Size(0usize) && trim_spec(
                size@,
            ).len() > 0 && all_digits(trim_spec(size@)) && 1 < dec_val(trim_spec(size@))
                < MAX_PUZZLE_SIZE),
            match r {
                Ok(()) => final(self).puzzle_settings matches PuzzleSettings::Size(n) && n as int
                    == dec_val(trim_spec(size@)),
                Err(e) => e == PuzzleError::InvalidOption && final(self).puzzle_settings == old(
                    self,
                ).puzzle_settings,
            },
    {
        match &self.puzzle_settings {
            PuzzleSettings::Size(n) => {
                if *n != 0 {
                    return Err(PuzzleError::InvalidOption);
                }
            },
            PuzzleSettings::TextPath(_) => {
                return Err(PuzzleError::InvalidOption);
            },
        }
        let trimmed = trim(size);
        match parse_usize(trimmed) {
            Some(num) => {
                if num > 1 && num < MAX_PUZZLE_SIZE {
                    self.puzzle_settings = PuzzleSettings::Size(num);
                    Ok(())
                } else {
                    Err(PuzzleError::InvalidOption)
                }
            },
            None => Err(PuzzleError::InvalidOption),
        }
    }

    /// The algorithm an option set will run: the chosen one, or A* by
    /// default.
    pub open spec fn effective_algorithm(self) -> Algorithm {
        match self.algorithm {
            Some(a) => a,
            None => Algorithm::AStar,
        }
    }

    /// Fill the defaults and validate the combination: a source must have
    /// been given, the algorithm defaults to A*, the heuristic defaults to
    /// Manhattan for heuristic algorithms, and a heuristic chosen for
    /// uniform cost is an `InvalidOption`.
    pub fn apply_default_setting(&mut self) -> (r: Result<(), PuzzleError>)
        ensures
            final(self).puzzle_settings == old(self).puzzle_settings,
            final(self).timeout == old(self).timeout,
            final(self).verbose == old(self).verbose,
            r.is_ok() <==> (old(self).puzzle_settings != PuzzleSettings::Size(0usize) && !(old(
                self,
            ).effective_algorithm() == Algorithm::UniformCost && old(self).heuristic
                != Heuristic::NotSet)),
            r.is_ok() ==> {
                &&& final(self).algorithm == Some(old(self).effective_algorithm())
                &&& final(self).heuristic == (if old(self).heuristic == Heuristic::NotSet && old(
                    self,
                ).effective_algorithm() != Algorithm::UniformCost {
                    Heuristic::Manhattan
                } else {
                    old(self).heuristic
                })
                &&& (final(self).heuristic == Heuristic::NotSet <==> final(self).algorithm == Some(
                    Algorithm::UniformCost,
                ))
            },
            match r {
                Ok(u) => true,
                Err(e) => e == PuzzleError::InvalidOption && final(self).heuristic == old(
                    self,
                ).heuristic,
            },
    {
        match &self.puzzle_settings {
            PuzzleSettings::Size(n) => {
                if *n == 0 {
                    return Err(PuzzleError::InvalidOption);
                }
            },
            PuzzleSettings::TextPath(_) => {},
        }
        if self.algorithm.is_none() {
            self.algorithm = Some(Algorithm::AStar);
        }
        let is_heuristic = match self.algorithm {
            Some(a) => a.is_heuristic(),
            None => true,
        };
        match self.heuristic {
            Heuristic::NotSet => {
                if is_heuristic {
                    self.heuristic = Heuristic::Manhattan;
                }
            },
            _ => {
                if !is_heuristic {
                    return Err(PuzzleError::InvalidOption);
                }
            },
        }
        Ok(())
    }
}

/// The board source as a plain value.
pub ghost enum SourceModel {
    Size(int),
    TextPath(Seq<char>),
}

/// The mathematical value of a choice set: every field as a plain value.
pub ghost struct SettingsModel {
    pub source: SourceModel,
    pub algorithm: Option<Algorithm>,
    pub heuristic: Heuristic,
    pub timeout: Option<int>,
    pub verbose: bool,
}

/// The model of a concrete choice set.
pub open spec fn settings_model(s: Settings) -> SettingsModel {
    SettingsModel {
        source: match s.puzzle_settings {
            PuzzleSettings::Size(n) => SourceModel::Size(n as int),
            PuzzleSettings::TextPath(p) => SourceModel::TextPath(p@),
        },
        algorithm: s.algorithm,
        heuristic: s.heuristic,
        timeout: match s.timeout {
            Some(t) => Some(t as int),
            None => None,
        },
        verbose: s.verbose,
    }
}

/// The state before any argument.
pub open spec fn default_model() -> SettingsModel {
    SettingsModel {
        source: SourceModel::Size(0),
        algorithm: None,
        heuristic: Heuristic::NotSet,
        timeout: None,
        verbose: false,
    }
}

/// What one `-a` value does to the choices.
pub open spec fn step_algorithm(m: SettingsModel, arg: Seq<char>) -> Result<
    SettingsModel,
    PuzzleError,
> {
    if m.algorithm is Some {
        Err(PuzzleError::InvalidOption)
    } else if arg == "astar"@ {
        Ok(SettingsModel { algorithm: Some(Algorithm::AStar), ..m })
    } else if arg == "uniform_cost"@ {
        Ok(SettingsModel { algorithm: Some(Algorithm::UniformCost), ..m })
    } else if arg == "greedy"@ {
        Ok(SettingsModel { algorithm: Some(Algorithm::Greedy), ..m })
    } else {
        Err(PuzzleError::InvalidOption)
    }
}

/// What one `-h` value does to the choices.
pub open spec fn step_heuristic(m: SettingsModel, arg: Seq<char>) -> Result<
    SettingsModel,
    PuzzleError,
> {
    if m.heuristic != Heuristic::NotSet {
        Err(PuzzleError::InvalidOption)
    } else if arg == "manhattan"@ {
        Ok(SettingsModel { heuristic: Heuristic::Manhattan, ..m })
    } else if arg == "hamming"@ {
        Ok(SettingsModel { heuristic: Heuristic::Hamming, ..m })
    } else if arg == "linear_conflict"@ {
        Ok(SettingsModel { heuristic: Heuristic::LinearConflict, ..m })
    } else if arg == "inversion_distance"@ {
        Ok(SettingsModel { heuristic: Heuristic::InversionDistance, ..m })
    } else {
        Err(PuzzleError::InvalidOption)
    }
}

/// What one `-t` value does to the choices.
pub open spec fn step_timeout(m: SettingsModel, arg: Seq<char>) -> Result<
    SettingsModel,
    PuzzleError,
> {
    let t = trim_spec(arg);
    if m.timeout is Some {
        Err(PuzzleError::InvalidOption)
    } else if t.len() > 0 && all_digits(t) && 0 < dec_val(t) <= usize::MAX {
        Ok(SettingsModel { timeout: Some(dec_val(t)), ..m })
    } else {
        Err(PuzzleError::InvalidOption)
    }
}

/// Whether a positional argument reads as a number.
pub open spec fn is_number_arg(arg: Seq<char>) -> bool {
    let t = trim_spec(arg);
    t.len() > 0 && all_digits(t) && dec_val(t) <= usize::MAX
}

/// What a numeric positional argument does to the choices.
pub open spec fn step_size(m: SettingsModel, arg: Seq<char>) -> Result<
    SettingsModel,
    PuzzleError,
> {
    let t = trim_spec(arg);
    if m.source != SourceModel::Size(0) {
        Err(PuzzleError::InvalidOption)
    } else if t.len() > 0 && all_digits(t) && 1 < dec_val(t) < MAX_PUZZLE_SIZE {
        Ok(SettingsModel { source: SourceModel::Size(dec_val(t)), ..m })
    } else {
        Err(PuzzleError::InvalidOption)
    }
}

/// What a path positional argument does to the choices.
pub open spec fn step_text_path(m: SettingsModel, arg: Seq<char>) -> Result<
    SettingsModel,
    PuzzleError,
> {
    if m.source != SourceModel::Size(0) {
        Err(PuzzleError::InvalidOption)
    } else if arg.len() >= 4 && arg.subrange(arg.len() - 4, arg.len() as int) == ".txt"@ {
        Ok(SettingsModel { source: SourceModel::TextPath(arg), ..m })
    } else {
        Err(PuzzleError::InvalidOption)
    }
}

/// Filling the defaults and validating the combination.
pub open spec fn finalize_model(m: SettingsModel) -> Result<SettingsModel, PuzzleError> {
    let alg = match m.algorithm {
        Some(a) => a,
        None => Algorithm::AStar,
    };
    if m.source == SourceModel::Size(0) {
        Err(PuzzleError::InvalidOption)
    } else if m.heuristic == Heuristic::NotSet {
        if alg == Algorithm::UniformCost {
            Ok(SettingsModel { algorithm: Some(alg), ..m })
        } else {
            Ok(SettingsModel { algorithm: Some(alg), heuristic: Heuristic::Manhattan, ..m })
        }
    } else if alg == Algorithm::UniformCost {
        Err(PuzzleError::InvalidOption)
    } else {
        Ok(SettingsModel { algorithm: Some(alg), ..m })
    }
}

/// The interpretation of the argument list from position `i` on, given the
/// choices made so far: each flag consumes the following argument, a
/// positional argument is a size when it reads as a number and a file path
/// otherwise, and the defaults are filled at the end.
pub open spec fn parse_from(args: Seq<Seq<char>>, i: int, m: SettingsModel) -> Result<
    SettingsModel,
    PuzzleError,
>
    decreases args.len() - i,
{
    if i >= args.len() {
        finalize_model(m)
    } else {
        let arg = args[i];
        if arg == "-a"@ || arg == "--algorithm"@ {
            if i + 1 >= args.len() {
                Err(PuzzleError::InvalidOption)
            } else {
                match step_algorithm(m, args[i + 1]) {
                    Ok(m2) => parse_from(args, i + 2, m2),
                    Err(e) => Err(e),
                }
            }
        } else if arg == "-h"@ || arg == "--heuristic"@ {
            if i + 1 >= args.len() {
                Err(PuzzleError::InvalidOption)
            } else {
                match step_heuristic(m, args[i + 1]) {
                    Ok(m2) => parse_from(args, i + 2, m2),
                    Err(e) => Err(e),
                }
            }
        } else if arg == "-t"@ || arg == "--timeout"@ {
            if i + 1 >= args.len() {
                Err(PuzzleError::InvalidOption)
            } else {
                match step_timeout(m, args[i + 1]) {
                    Ok(m2) => parse_from(args, i + 2, m2),
                    Err(e) => Err(e),
                }
            }
        } else if arg == "--verbose"@ {
            parse_from(args, i + 1, SettingsModel { verbose: true, ..m })
        } else if is_number_arg(arg) {
            match step_size(m, arg) {
                Ok(m2) => parse_from(args, i + 1, m2),
                Err(e) => Err(e),
            }
        } else {
            match step_text_path(m, arg) {
                Ok(m2) => parse_from(args, i + 1, m2),
                Err(e) => Err(e),
            }
        }
    }
}

/// The character sequences of an argument vector.
pub open spec fn arg_views(args: Seq<String>) -> Seq<Seq<char>> {
    Seq::new(args.len(), |i: int| args[i]@)
}

/// The outcome the whole argument list denotes: `None` for a bare program
/// name, otherwise the fold of the flags and positional arguments over the
/// default choices.
pub open spec fn parse_args_spec(args: Seq<Seq<char>>) -> Result<
    Option<SettingsModel>,
    PuzzleError,
> {
    if args.len() == 1 {
        Ok(None)
    } else {
        match parse_from(args, 1, default_model()) {
            Ok(m) => Ok(Some(m)),
            Err(e) => Err(e),
        }
    }
}

/// Interpret the argument list: the first argument is the program name, a
/// positional argument names the size or the puzzle file, and the flagged
/// pairs choose the algorithm, heuristic and timeout.  A bare program name
/// yields `None` (the caller prints the usage line).  The outcome is exactly
/// the fold `parse_args_spec` of the argument strings.
pub fn parse_args(args: Vec<String>) -> (r: Result<Option<Settings>, PuzzleError>)
    ensures
        match r {
            Ok(opt) => match opt {
                Some(s) => {
                    &&& parse_args_spec(arg_views(args@)) == Ok::<
                        Option<SettingsModel>,
                        PuzzleError,
                    >(Some(settings_model(s)))
                    &&& args@.len() != 1
                    &&& s.algorithm.is_some()
                    &&& (s.heuristic == Heuristic::NotSet <==> s.algorithm == Some(
                        Algorithm::UniformCost,
                    ))
                    &&& s.puzzle_settings != PuzzleSettings::Size(0usize)
                },
                None => parse_args_spec(arg_views(args@)) == Ok::<
                    Option<SettingsModel>,
                    PuzzleError,
                >(None) && args@.len() == 1,
            },
            Err(e) => parse_args_spec(arg_views(args@)) == Err::<
                Option<SettingsModel>,
                PuzzleError,
            >(e) && e == PuzzleError::InvalidOption,
        },
{
    let len_args = args.len();
    let mut settings = Settings::new_default();

    if len_args == 1 {
        return Ok(None);
    }
    let ghost views = arg_views(args@);
    let ghost target = parse_from(views, 1, default_model());
    proof {
        assert(settings_model(settings) == default_model());
    }
    let mut i: usize = 1;
    while i < len_args
        invariant
            len_args == args@.len(),
            args@.len() != 1,
            1 <= i,
            views == arg_views(args@),
            target == parse_from(views, 1, default_model()),
            parse_from(views, i as int, settings_model(settings)) == target,
        decreases len_args - i,
    {
        proof {
            reveal_strlit("astar");
            reveal_strlit("uniform_cost");
            reveal_strlit("greedy");
            reveal_strlit("manhattan");
            reveal_strlit("hamming");
            reveal_strlit("linear_conflict");
            reveal_strlit("inversion_distance");
            assert("astar"@.len() == 5 && "uniform_cost"@.len() == 12 && "greedy"@.len() == 6);
            assert("manhattan"@.len() == 9 && "hamming"@.len() == 7 && "linear_conflict"@.len()
                == 15 && "inversion_distance"@.len() == 18);
            assert(views[i as int] == args@[i as int]@);
        }
        let ghost i0 = i as int;
        let ghost m0 = settings_model(settings);
        let arg = args[i].as_str();
        if str_eq(arg, "-a") || str_eq(arg, "--algorithm") {
            i += 1;
            if i == len_args {
                return Err(PuzzleError::InvalidOption);
            }
            proof {
                assert(views[i0 + 1] == args@[i0 + 1]@);
            }
            match settings.set_algorithm(args[i].as_str()) {
                Ok(()) => {
                    proof {
                        assert(step_algorithm(m0, views[i0 + 1]) == Ok::<
                            SettingsModel,
                            PuzzleError,
                        >(settings_model(settings)));
                    }
                },
                Err(e) => {
                    proof {
                        assert(step_algorithm(m0, views[i0 + 1]) == Err::<
                            SettingsModel,
                            PuzzleError,
                        >(PuzzleError::InvalidOption));
                    }
                    return Err(e);
                },
            }
        } else if str_eq(arg, "-h") || str_eq(arg, "--heuristic") {
            i += 1;
            if i == len_args {
                return Err(PuzzleError::InvalidOption);
            }
            proof {
                assert(views[i0 + 1] == args@[i0 + 1]@);
            }
            match settings.set_heuristic(args[i].as_str()) {
                Ok(()) => {
                    proof {
                        assert(step_heuristic(m0, views[i0 + 1]) == Ok::<
                            SettingsModel,
                            PuzzleError,
                        >(settings_model(settings)));
                    }
                },
                Err(e) => {
                    proof {
                        assert(step_heuristic(m0, views[i0 + 1]) == Err::<
                            SettingsModel,
                            PuzzleError,
                        >(PuzzleError::InvalidOption));
                    }
                    return Err(e);
                },
            }
        } else if str_eq(arg, "-t") || str_eq(arg, "--timeout") {
            i += 1;
            if i == len_args {
                return Err(PuzzleError::InvalidOption);
            }
            proof {
                assert(views[i0 + 1] == args@[i0 + 1]@);
            }
            match settings.set_timeout(args[i].as_str()) {
                Ok(()) => {
                    proof {
                        assert(step_timeout(m0, views[i0 + 1]) == Ok::<
                            SettingsModel,
                            PuzzleError,
                        >(settings_model(settings)));
                    }
                },
                Err(e) => {
                    proof {
                        assert(step_timeout(m0, views[i0 + 1]) == Err::<
                            SettingsModel,
                            PuzzleError,
                        >(PuzzleError::InvalidOption));
                    }
                    return Err(e);
                },
            }
        } else if str_eq(arg, "--verbose") {
            settings.verbose = true;
            proof {
                assert(settings_model(settings) == SettingsModel { verbose: true, ..m0 });
            }
        } else {
            let is_number = match parse_usize(trim(arg)) {
                Some(_) => true,
                None => false,
            };
            proof {
                assert(is_number == is_number_arg(views[i0]));
            }
            if is_number {
                match settings.set_size(arg) {
                    Ok(()) => {
                        proof {
                            assert(step_size(m0, views[i0]) == Ok::<SettingsModel, PuzzleError>(
                                settings_model(settings),
                            ));
                        }
                    },
                    Err(e) => {
                        proof {
                            assert(step_size(m0, views[i0]) == Err::<SettingsModel, PuzzleError>(
                                PuzzleError::InvalidOption,
                            ));
                        }
                        return Err(e);
                    },
                }
            } else {
                match settings.set_text_path(arg) {
                    Ok(()) => {
                        proof {
                            assert(step_text_path(m0, views[i0]) == Ok::<
                                SettingsModel,
                                PuzzleError,
                            >(settings_model(settings)));
                        }
                    },
                    Err(e) => {
                        proof {
                            assert(step_text_path(m0, views[i0]) == Err::<
                                SettingsModel,
                                PuzzleError,
                            >(PuzzleError::InvalidOption));
                        }
                        return Err(e);
                    },
                }
            }
        }
        i += 1;
    }
    proof {
        assert(parse_from(views, i as int, settings_model(settings)) == finalize_model(
            settings_model(settings),
        ));
    }
    let ghost m_end = settings_model(settings);
    match settings.apply_default_setting() {
        Ok(()) => {
            proof {
                assert(finalize_model(m_end) == Ok::<SettingsModel, PuzzleError>(settings_model(
                    settings,
                )));
            }
        },
        Err(e) => {
            proof {
                assert(finalize_model(m_end) == Err::<SettingsModel, PuzzleError>(
                    PuzzleError::InvalidOption,
                ));
            }
            return Err(e);
        },
    }
    Ok(Some(settings))
}

} // verus!
