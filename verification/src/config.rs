//! Configuration: command-line flags merged with an environment default.

use vstd::prelude::*;

use crate::search::line_views;
use crate::search::search;
use crate::search::search_case_insensitive;
use crate::search::search_ci_spec;
use crate::search::search_spec;

verus! {

/// Whether some element of `args` is exactly `flag`.
pub open spec fn flag_present(args: Seq<Seq<char>>, flag: Seq<char>) -> bool {
    exists|i: int| 0 <= i < args.len() && args[i] == flag
}

/// The case-insensitivity setting that results from the environment default
/// and the flag arguments: the flag can only switch it on, never off.
pub open spec fn resolved_ignore_case(env_default: bool, args: Seq<Seq<char>>) -> bool {
    env_default || flag_present(args, "--ignore-case"@)
}

/// The two search settings.
pub struct Args {
    pub ignore_case: bool,
    pub save_output: bool,
}

/// The views of a sequence of owned argument strings.
pub open spec fn arg_views(args: Seq<String>) -> Seq<Seq<char>> {
    args.map_values(|s: String| s@)
}

proof fn lemma_flag_present_push(args: Seq<Seq<char>>, x: Seq<char>, flag: Seq<char>)
    ensures
        flag_present(args.push(x), flag) == (flag_present(args, flag) || x == flag),
{
    if flag_present(args, flag) {
        let i = choose|i: int| 0 <= i < args.len() && args[i] == flag;
        assert(args.push(x)[i] == flag);
    }
    if x == flag {
        assert(args.push(x)[args.len() as int] == flag);
    }
    if flag_present(args.push(x), flag) {
        let i = choose|i: int| 0 <= i < args.push(x).len() && args.push(x)[i] == flag;
        if i < args.len() {
            assert(args[i] == flag);
        }
    }
}

impl Args {
    /// Fresh settings: case-insensitivity starts at the environment-derived
    /// default, saving starts off.
    pub fn new(ignore_case_default: bool) -> (a: Args)
        ensures
            a.ignore_case == ignore_case_default,
            a.save_output == false,
    {
        Args { ignore_case: ignore_case_default, save_output: false }
    }

    /// Scans `args` for the two flags. A flag can only switch its setting on;
    /// every other token is ignored.
    pub fn config_args(&mut self, args: &Vec<String>)
        ensures
            final(self).ignore_case == (old(self).ignore_case || flag_present(
                arg_views(args@),
                "--ignore-case"@,
            )),
            final(self).save_output == (old(self).save_output || flag_present(
                arg_views(args@),
                "--save-output"@,
            )),
    {
        let ignore_flag = String::from_str("--ignore-case");
        let save_flag = String::from_str("--save-output");
        let ghost av = arg_views(args@);
        let mut k: usize = 0;
        proof {
            assert(av.take(0) =~= Seq::<Seq<char>>::empty());
        }
        while k < args.len()
            invariant
                k <= args@.len(),
                av == arg_views(args@),
                ignore_flag@ == "--ignore-case"@,
                save_flag@ == "--save-output"@,
                self.ignore_case == (old(self).ignore_case || flag_present(
                    av.take(k as int),
                    "--ignore-case"@,
                )),
                self.save_output == (old(self).save_output || flag_present(
                    av.take(k as int),
                    "--save-output"@,
                )),
            decreases args@.len() - k,
        {
            let arg = &args[k];
            if arg.eq(&ignore_flag) {
                self.ignore_case = true;
            } else if arg.eq(&save_flag) {
                self.save_output = true;
            }
            proof {
                reveal_strlit("--ignore-case");
                reveal_strlit("--save-output");
                assert("--ignore-case"@[2] != "--save-output"@[2]);
                assert(av.take(k as int + 1) =~= av.take(k as int).push(av[k as int]));
                assert(av[k as int] == args@[k as int]@);
                lemma_flag_present_push(av.take(k as int), av[k as int], "--ignore-case"@);
                lemma_flag_present_push(av.take(k as int), av[k as int], "--save-output"@);
            }
            k += 1;
        }
        proof {
            assert(av.take(args@.len() as int) =~= av);
        }
    }
}

/// A full run configuration: the query, the file to search, and the settings.
pub struct Config {
    pub query: String,
    pub file_path: String,
    pub args: Args,
}

/// What a successfully built configuration holds, given the argument list
/// (program name first) and the environment default for case-insensitivity.
pub open spec fn built_config(c: Config, args: Seq<String>, env_default: bool) -> bool {
    &&& c.query@ == args[1]@
    &&& c.file_path@ == args[2]@
    &&& c.args.ignore_case == resolved_ignore_case(env_default, arg_views(args).skip(3))
    &&& c.args.save_output == flag_present(arg_views(args).skip(3), "--save-output"@)
}

impl Config {
    /// Builds the configuration from the argument list, whose first element
    /// is the program name, and from whether the environment asks for
    /// case-insensitive search by default. Fails exactly when the query or
    /// the file path is missing.
    pub fn build(args: Vec<String>, env_ignore_case: bool) -> (res: Result<Config, &'static str>)
        ensures
            args@.len() < 2 ==> (res matches Err(m) && m@ == "Didn't get a query string"@),
            args@.len() == 2 ==> (res matches Err(m) && m@ == "Didn't get a file path"@),
            args@.len() >= 3 ==> (res matches Ok(c) && built_config(c, args@, env_ignore_case)),
    {
        if args.len() < 2 {
            return Err("Didn't get a query string");
        }
        if args.len() < 3 {
            return Err("Didn't get a file path");
        }
        let query = args[1].clone();
        let file_path = args[2].clone();
        let mut rest: Vec<String> = Vec::new();
        let mut k: usize = 3;
        while k < args.len()
            invariant
                3 <= k <= args@.len(),
                3 <= args@.len(),
                rest@.len() == k - 3,
                forall|i: int| 0 <= i < rest@.len() ==> rest@[i]@ == args@[3 + i]@,
            decreases args@.len() - k,
        {
            rest.push(args[k].clone());
            k += 1;
        }
        let mut cli_args = Args::new(env_ignore_case);
        cli_args.config_args(&rest);
        proof {
            assert(arg_views(rest@) =~= arg_views(args@).skip(3));
        }
        Ok(Config { query, file_path, args: cli_args })
    }

    /// The matching lines of `contents` under this configuration:
    /// case-insensitive search when `ignore_case` is set, plain search
    /// otherwise.
    pub fn search_lines<'a>(&self, contents: &'a str) -> (res: Vec<&'a str>)
        ensures
            self.args.ignore_case ==> line_views(res@) == search_ci_spec(self.query@, contents@),
            !self.args.ignore_case ==> line_views(res@) == search_spec(self.query@, contents@),
    {
        if self.args.ignore_case {
            search_case_insensitive(self.query.as_str(), contents)
        } else {
            search(self.query.as_str(), contents)
        }
    }
}

/// Law: the environment default can only be strengthened. Once it is set,
/// the resolved setting is on whatever the arguments hold; the flag can turn
/// the setting on but nothing can turn it off.
pub proof fn lemma_ignore_case_precedence(env_default: bool, args: Seq<Seq<char>>)
    ensures
        env_default ==> resolved_ignore_case(env_default, args),
        flag_present(args, "--ignore-case"@) ==> resolved_ignore_case(env_default, args),
        !env_default && !flag_present(args, "--ignore-case"@) ==> !resolved_ignore_case(
            env_default,
            args,
        ),
{
}

} // verus!
