//! Parsing the command-line arguments into a run configuration: a
//! strategy tag with either a move order (for breadth- and depth-first
//! search) or a heuristic tag (for informed search), and three file
//! names.

use vstd::prelude::*;

use vstd::string::StrSliceExecFns;

use crate::direction::full_order;
use crate::direction::Direction;
use crate::strategy::Metric;
use crate::strategy::Strategy;

verus! {

/// Why the command-line arguments could not be parsed.
#[derive(Debug)]
pub enum ArgsError {
    NotEnoughArguments,
    InvalidStrategy,
    InvalidOrder,
}

/// The run configuration: the chosen strategy and the input, solution,
/// and statistics file names.
#[derive(Debug)]
pub struct Config {
    pub strategy: Strategy,
    pub input_file: String,
    pub solution_file: String,
    pub stats_file: String,
}

/// The direction named by an order letter, in either case.
pub open spec fn letter_dir(c: char) -> Option<Direction> {
    if c == 'U' || c == 'u' {
        Some(Direction::Up)
    } else if c == 'D' || c == 'd' {
        Some(Direction::Down)
    } else if c == 'L' || c == 'l' {
        Some(Direction::Left)
    } else if c == 'R' || c == 'r' {
        Some(Direction::Right)
    } else {
        None
    }
}

/// A valid move order: exactly four letters naming four distinct
/// directions — a permutation of the four moves.
pub open spec fn order_ok(s: Seq<char>) -> bool {
    &&& s.len() == 4
    &&& forall|i: int| 0 <= i < 4 ==> letter_dir(#[trigger] s[i]) is Some
    &&& forall|i: int, j: int| 0 <= i < j < 4 ==> letter_dir(s[i]) != letter_dir(s[j])
}

/// The directions named by a valid move order.
pub open spec fn order_dirs(s: Seq<char>) -> Seq<Direction> {
    Seq::new(4, |i: int| letter_dir(s[i])->Some_0)
}

/// The heuristic named by a metric tag.
pub open spec fn metric_token(s: Seq<char>) -> Option<Metric> {
    if s == "manh"@ {
        Some(Metric::Manhattan)
    } else if s == "hamm"@ {
        Some(Metric::Hamming)
    } else {
        None
    }
}

/// Decides whether two string slices hold the same characters.
fn str_eq(a: &str, b: &str) -> (r: bool)
    ensures
        r == (a@ == b@),
{
    let an = a.unicode_len();
    let bn = b.unicode_len();
    if an != bn {
        return false;
    }
    let mut i: usize = 0;
    while i < an
        invariant
            an == a@.len(),
            an == b@.len(),
            i <= an,
            forall|j: int| 0 <= j < i ==> a@[j] == b@[j],
        decreases an - i,
    {
        let ca = a.get_char(i);
        let cb = b.get_char(i);
        if ca != cb {
            return false;
        }
        i = i + 1;
    }
    proof {
        assert(a@ =~= b@);
    }
    true
}

/// Maps an order letter to its direction, rejecting other characters.
fn char_dir(c: char) -> (r: Option<Direction>)
    ensures
        r == letter_dir(c),
{
    if c == 'U' || c == 'u' {
        Some(Direction::Up)
    } else if c == 'D' || c == 'd' {
        Some(Direction::Down)
    } else if c == 'L' || c == 'l' {
        Some(Direction::Left)
    } else if c == 'R' || c == 'r' {
        Some(Direction::Right)
    } else {
        None
    }
}

impl Config {
    /// Parses the command-line arguments: the strategy tag (`bfs`,
    /// `dfs`, or `astr`), then a four-letter move order or a heuristic
    /// tag (`manh` or `hamm`), then the input, solution, and statistics
    /// file names.
    pub fn new(args: &Vec<String>) -> (r: Result<Config, ArgsError>)
        ensures
            match r {
                Ok(c) => {
                    &&& args@.len() >= 6
                    &&& (args@[1]@ == "bfs"@ || args@[1]@ == "dfs"@ || args@[1]@ == "astr"@)
                    &&& (args@[1]@ == "bfs"@ ==> (c.strategy matches Strategy::Bfs(ds) && ds@
                        == order_dirs(args@[2]@) && full_order(ds@)))
                    &&& (args@[1]@ == "dfs"@ ==> (c.strategy matches Strategy::Dfs(ds) && ds@
                        == order_dirs(args@[2]@) && full_order(ds@)))
                    &&& (args@[1]@ == "bfs"@ || args@[1]@ == "dfs"@ ==> order_ok(args@[2]@))
                    &&& (args@[1]@ == "astr"@ ==> (c.strategy matches Strategy::AStar(m) && Some(
                        m,
                    ) == metric_token(args@[2]@)))
                    &&& c.input_file@ == args@[3]@
                    &&& c.solution_file@ == args@[4]@
                    &&& c.stats_file@ == args@[5]@
                },
                Err(e) => match e {
                    ArgsError::NotEnoughArguments => args@.len() < 6,
                    ArgsError::InvalidStrategy => args@.len() >= 6 && !(args@[1]@ == "bfs"@
                        || args@[1]@ == "dfs"@ || args@[1]@ == "astr"@),
                    ArgsError::InvalidOrder => args@.len() >= 6 && (((args@[1]@ == "bfs"@
                        || args@[1]@ == "dfs"@) && !order_ok(args@[2]@)) || (args@[1]@ == "astr"@
                        && metric_token(args@[2]@) is None)),
                },
            },
    {
        if args.len() < 6 {
            return Err(ArgsError::NotEnoughArguments);
        }
        let strategy_str: &str = args[1].as_str();
        let order_str: &str = args[2].as_str();
        let is_bfs = str_eq(strategy_str, "bfs");
        let is_dfs = str_eq(strategy_str, "dfs");
        let is_astr = str_eq(strategy_str, "astr");
        proof {
            reveal_strlit("bfs");
            reveal_strlit("dfs");
            reveal_strlit("astr");
            assert("bfs"@.len() == 3 && "dfs"@.len() == 3 && "astr"@.len() == 4);
            assert("bfs"@[0] == 'b' && "dfs"@[0] == 'd');
        }
        let strategy: Strategy;
        if is_bfs || is_dfs {
            if order_str.unicode_len() != 4 {
                return Err(ArgsError::InvalidOrder);
            }
            let d0 = match char_dir(order_str.get_char(0)) {
                Some(d) => d,
                None => {
                    return Err(ArgsError::InvalidOrder);
                },
            };
            let d1 = match char_dir(order_str.get_char(1)) {
                Some(d) => d,
                None => {
                    return Err(ArgsError::InvalidOrder);
                },
            };
            let d2 = match char_dir(order_str.get_char(2)) {
                Some(d) => d,
                None => {
                    return Err(ArgsError::InvalidOrder);
                },
            };
            let d3 = match char_dir(order_str.get_char(3)) {
                Some(d) => d,
                None => {
                    return Err(ArgsError::InvalidOrder);
                },
            };
            if d0 == d1 || d0 == d2 || d0 == d3 || d1 == d2 || d1 == d3 || d2 == d3 {
                return Err(ArgsError::InvalidOrder);
            }
            let dirs = [d0, d1, d2, d3];
            proof {
                assert(dirs@ =~= order_dirs(order_str@));
                assert(dirs@[0] == d0 && dirs@[1] == d1 && dirs@[2] == d2 && dirs@[3] == d3);
                assert(dirs@.contains(d0) && dirs@.contains(d1) && dirs@.contains(d2)
                    && dirs@.contains(d3));
                assert(d0 == Direction::Up || d1 == Direction::Up || d2 == Direction::Up || d3
                    == Direction::Up);
                assert(d0 == Direction::Down || d1 == Direction::Down || d2 == Direction::Down
                    || d3 == Direction::Down);
                assert(d0 == Direction::Left || d1 == Direction::Left || d2 == Direction::Left
                    || d3 == Direction::Left);
                assert(d0 == Direction::Right || d1 == Direction::Right || d2 == Direction::Right
                    || d3 == Direction::Right);
                assert(full_order(dirs@));
            }
            strategy = if is_bfs {
                Strategy::Bfs(dirs)
            } else {
                Strategy::Dfs(dirs)
            };
        } else if is_astr {
            if str_eq(order_str, "manh") {
                strategy = Strategy::AStar(Metric::Manhattan);
            } else if str_eq(order_str, "hamm") {
                strategy = Strategy::AStar(Metric::Hamming);
            } else {
                return Err(ArgsError::InvalidOrder);
            }
        } else {
            return Err(ArgsError::InvalidStrategy);
        }
        let input_file = args[3].clone();
        let solution_file = args[4].clone();
        let stats_file = args[5].clone();
        Ok(Config { strategy, input_file, solution_file, stats_file })
    }
}

} // verus!
