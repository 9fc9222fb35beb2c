//! The seatbelt sandbox: a profile that denies all network and confines writes
//! to the build and scratch directories. Reads stay broad (the toolchain and
//! registry must be readable), but with no network nothing can leave.

use vstd::prelude::*;

verus! {

/// Absolute path of the sandbox binary.
pub const SANDBOX_EXEC: &'static str = "/usr/bin/sandbox-exec";

/// The part of the profile that does not depend on the build.
pub const BASE_RULES: &'static str = "(version 1)\n(deny default)\n(allow process-fork)\n(allow process-exec)\n(allow sysctl-read)\n(allow mach-lookup)\n(allow signal (target self))\n(allow file-read*)\n(deny network*)\n";

/// The rule that lets the build write below one directory.
pub open spec fn write_rule(dir: Seq<char>) -> Seq<char> {
    "(allow file-write* (subpath \""@ + dir + "\"))\n"@
}

/// The whole profile: the base rules, then one write rule per directory.
pub open spec fn profile_text(dirs: Seq<Seq<char>>) -> Seq<char>
    decreases dirs.len(),
{
    if dirs.len() == 0 {
        BASE_RULES@
    } else {
        profile_text(dirs.drop_last()) + write_rule(dirs.last())
    }
}

/// Builds the profile. `write_dirs` are the absolute paths below which the
/// build may write.
pub fn profile(write_dirs: &[&str]) -> (r: String)
    ensures
        r@ == profile_text(write_dirs@.map_values(|d: &str| d@)),
{
    let mut p = BASE_RULES.to_owned();
    let ghost all = write_dirs@.map_values(|d: &str| d@);
    let mut i: usize = 0;
    assert(all.take(0) =~= Seq::empty());
    while i < write_dirs.len()
        invariant
            i <= write_dirs@.len(),
            all == write_dirs@.map_values(|d: &str| d@),
            p@ == profile_text(all.take(i as int)),
        decreases write_dirs@.len() - i,
    {
        p.append("(allow file-write* (subpath \"");
        p.append(write_dirs[i]);
        p.append("\"))\n");
        proof {
            let before = all.take(i as int);
            let after = all.take(i + 1);
            assert(after.drop_last() =~= before);
            assert(after.last() == write_dirs@[i as int]@);
            assert(p@ =~= profile_text(before) + write_rule(after.last()));
        }
        i += 1;
    }
    assert(all.take(all.len() as int) =~= all);
    p
}

/// Whatever the directories, the profile begins with the base rules: network
/// and everything not named stay denied.
pub proof fn profile_keeps_base_rules(dirs: Seq<Seq<char>>)
    ensures
        BASE_RULES@.is_prefix_of(profile_text(dirs)),
    decreases dirs.len(),
{
    if dirs.len() > 0 {
        profile_keeps_base_rules(dirs.drop_last());
        let head = profile_text(dirs.drop_last());
        assert(profile_text(dirs).subrange(0, BASE_RULES@.len() as int) =~= head.subrange(
            0,
            BASE_RULES@.len() as int,
        ));
    }
}

} // verus!
