//! Per-run configuration and what follows from it alone.
//!
//! `Cli` mirrors the command line, `ConfigFile` the optional configuration
//! file, and `Config` combines the two. From them the library computes the
//! preference list, the branch override, and the exact argument list of a
//! push invocation. Reading the file and parsing the command line are I/O
//! and happen outside; the library receives the plain values.

use vstd::prelude::*;

verus! {

/// Command-line options.
#[derive(Debug, Clone)]
pub struct Cli {
    /// Log filter directives.
    pub log: String,
    /// Abort the whole run at the first failure to push.
    pub fail_fast: bool,
    /// Push with `--force-with-lease`.
    pub force: bool,
    /// Push with `--force`.
    pub force_unchecked: bool,
    /// Skip the pre-push hook when pushing.
    pub skip_hooks: bool,
    /// The branch to push; the current branch when absent.
    pub branch: Option<String>,
    /// The remote to push to first.
    pub remote: Option<String>,
    /// Extra arguments passed through to the push invocation.
    pub git_push_args: Vec<String>,
}

/// Configuration file contents.
pub struct ConfigFile {
    /// Remotes to attempt to push to, in order.
    pub remotes: Vec<String>,
}

impl Default for ConfigFile {
    /// An absent configuration file: no preferred remotes.
    fn default() -> (r: Self)
        ensures
            r.remotes@.len() == 0,
    {
        ConfigFile { remotes: Vec::new() }
    }
}

/// Configuration, both from the command line and a user configuration file.
pub struct Config {
    /// User configuration file.
    pub file: ConfigFile,
    /// Command-line options.
    pub cli: Cli,
}

/// The preference list: the command-line remote first when present, then
/// the configuration file's list. Only when neither source names anything
/// does the list default to `"origin"`.
pub open spec fn spec_preferences(cli_remote: Option<Seq<char>>, file_remotes: Seq<Seq<char>>) -> Seq<
    Seq<char>,
> {
    let head = match cli_remote {
        Option::Some(r) => seq![r],
        Option::None => Seq::<Seq<char>>::empty(),
    };
    let tail = if file_remotes.len() > 0 {
        file_remotes
    } else {
        match cli_remote {
            Option::Some(_) => Seq::<Seq<char>>::empty(),
            Option::None => seq!["origin"@],
        }
    };
    head + tail
}

/// The full argument list of one push invocation, identical for every
/// attempt: a set-upstream push of `branch` to `remote`, the policy-driven
/// flags, then the pass-through arguments.
pub open spec fn spec_push_args(cli: Cli, branch: Seq<char>, remote: Seq<char>) -> Seq<Seq<char>> {
    let base = seq!["push"@, "--set-upstream"@, remote, branch];
    let force_flags = if cli.force {
        seq!["--force-with-lease"@]
    } else if cli.force_unchecked {
        seq!["--force"@]
    } else {
        Seq::<Seq<char>>::empty()
    };
    let verify_flags = if cli.skip_hooks {
        seq!["--no-verify"@]
    } else {
        Seq::<Seq<char>>::empty()
    };
    base + force_flags + verify_flags + cli.git_push_args.deep_view()
}

impl Config {
    /// The remote names to try first, highest preference first: the
    /// command-line remote always precedes the configuration file's list.
    pub fn remote_preferences(&self) -> (r: Vec<String>)
        ensures
            r.deep_view() == spec_preferences(
                self.cli.remote.deep_view(),
                self.file.remotes.deep_view(),
            ),
    {
        let mut ret: Vec<String> = Vec::new();
        if let Some(remote) = &self.cli.remote {
            ret.push(remote.clone());
        }
        if self.file.remotes.len() > 0 {
            let mut i: usize = 0;
            let ghost head = ret.deep_view();
            while i < self.file.remotes.len()
                invariant
                    i <= self.file.remotes@.len(),
                    ret.deep_view() == head + self.file.remotes.deep_view().take(i as int),
                decreases self.file.remotes@.len() - i,
            {
                ret.push(self.file.remotes[i].clone());
                proof {
                    let dv = self.file.remotes.deep_view();
                    let prev = head + dv.take(i as int);
                    let next = head + dv.take(i as int + 1);
                    assert(ret.deep_view() =~= next) by {
                        assert forall|j: int| 0 <= j < next.len() implies ret.deep_view()[j]
                            == next[j] by {
                            if j < prev.len() {
                                assert(ret.deep_view()[j] == prev[j]);
                                if j >= head.len() {
                                    assert(dv.take(i as int)[j - head.len()] == dv[j - head.len()]);
                                    assert(dv.take(i as int + 1)[j - head.len()] == dv[j
                                        - head.len()]);
                                }
                            } else {
                                assert(ret.deep_view()[j] == dv[i as int]);
                                assert(dv.take(i as int + 1)[j - head.len()] == dv[i as int]);
                            }
                        }
                    }
                }
                i = i + 1;
            }
            proof {
                assert(self.file.remotes.deep_view().take(i as int) =~= self.file.remotes.deep_view());
            }
        } else if self.cli.remote.is_none() {
            ret.push("origin".to_owned());
        }
        proof {
            assert(ret.deep_view() =~= spec_preferences(
                self.cli.remote.deep_view(),
                self.file.remotes.deep_view(),
            ));
        }
        ret
    }

    /// The branch named on the command line, if any; when absent the
    /// collaborator is asked for the current branch instead.
    pub fn branch_override(&self) -> (r: Option<String>)
        ensures
            r.deep_view() == self.cli.branch.deep_view(),
    {
        match &self.cli.branch {
            Some(b) => Some(b.clone()),
            None => None,
        }
    }

    /// The arguments of the push invocation for one remote, matching
    /// `spec_push_args`.
    pub fn push_command_args(&self, branch: &str, remote: &str) -> (r: Vec<String>)
        ensures
            r.deep_view() == spec_push_args(self.cli, branch@, remote@),
    {
        let mut args: Vec<String> = Vec::new();
        args.push("push".to_owned());
        args.push("--set-upstream".to_owned());
        args.push(remote.to_owned());
        args.push(branch.to_owned());
        if self.cli.force {
            args.push("--force-with-lease".to_owned());
        } else if self.cli.force_unchecked {
            args.push("--force".to_owned());
        }
        if self.cli.skip_hooks {
            args.push("--no-verify".to_owned());
        }
        let ghost head = args.deep_view();
        let mut i: usize = 0;
        while i < self.cli.git_push_args.len()
            invariant
                i <= self.cli.git_push_args@.len(),
                args.deep_view() == head + self.cli.git_push_args.deep_view().take(i as int),
            decreases self.cli.git_push_args@.len() - i,
        {
            args.push(self.cli.git_push_args[i].clone());
            proof {
                let dv = self.cli.git_push_args.deep_view();
                let prev = head + dv.take(i as int);
                let next = head + dv.take(i as int + 1);
                assert(args.deep_view() =~= next) by {
                    assert forall|j: int| 0 <= j < next.len() implies args.deep_view()[j]
                        == next[j] by {
                        if j < prev.len() {
                            assert(args.deep_view()[j] == prev[j]);
                            if j >= head.len() {
                                assert(dv.take(i as int)[j - head.len()] == dv[j - head.len()]);
                                assert(dv.take(i as int + 1)[j - head.len()] == dv[j - head.len()]);
                            }
                        } else {
                            assert(args.deep_view()[j] == dv[i as int]);
                            assert(dv.take(i as int + 1)[j - head.len()] == dv[i as int]);
                        }
                    }
                }
            }
            i = i + 1;
        }
        proof {
            assert(self.cli.git_push_args.deep_view().take(i as int)
                =~= self.cli.git_push_args.deep_view());
            assert(args.deep_view() =~= spec_push_args(self.cli, branch@, remote@));
        }
        args
    }
}

} // verus!
