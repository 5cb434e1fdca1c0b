//! Process configuration: the security policy flag and the reading of
//! boolean settings.
use vstd::prelude::*;
use crate::text::{
    ascii_lower_char, ascii_lower_seq, chars_of, owned, same_chars, strip, strip_chars, Strip,
};

verus! {

/// The security policy of the process: whether client paths may leave the
/// root directory. It lives as long as the process and is never persisted.
#[derive(Clone, Copy, PartialEq, Eq, Structural, Debug)]
pub struct SecurityPolicy {
    pub allow_parent_dir_access: bool,
}

/// The view of an optional string slice.
pub open spec fn setting_text(value: Option<&str>) -> Option<Seq<char>> {
    match value {
        Some(v) => Some(v@),
        None => None,
    }
}

impl SecurityPolicy {
    /// The policy at startup: parent access is allowed exactly when the
    /// setting is the single character `1`.
    pub fn from_setting(value: Option<&str>) -> (policy: SecurityPolicy)
        ensures
            policy.allow_parent_dir_access == (setting_text(value) == Some("1"@)),
    {
        match value {
            Some(v) => {
                let c = chars_of(v);
                let one = chars_of("1");
                SecurityPolicy { allow_parent_dir_access: same_chars(&c, &one) }
            },
            None => SecurityPolicy { allow_parent_dir_access: false },
        }
    }

    /// Replaces the flag.
    pub fn set(&mut self, allow: bool)
        ensures
            final(self).allow_parent_dir_access == allow,
    {
        self.allow_parent_dir_access = allow;
    }

    /// Flips the flag and returns its new value.
    pub fn toggle(&mut self) -> (now: bool)
        ensures
            now == !old(self).allow_parent_dir_access,
            final(self).allow_parent_dir_access == now,
    {
        self.allow_parent_dir_access = !self.allow_parent_dir_access;
        self.allow_parent_dir_access
    }

    /// The setting that stands for the flag: `1` or `0`.
    pub fn setting(&self) -> (out: String)
        ensures
            out@ == (if self.allow_parent_dir_access {
                "1"@
            } else {
                "0"@
            }),
            SecurityPolicy::reads_as(out@) == self.allow_parent_dir_access,
    {
        proof {
            reveal_strlit("1");
            reveal_strlit("0");
            assert("1"@[0] == '1' && "0"@[0] == '0');
        }
        if self.allow_parent_dir_access {
            owned("1")
        } else {
            owned("0")
        }
    }

    /// Whether a setting allows parent access.
    pub open spec fn reads_as(value: Seq<char>) -> bool {
        value == "1"@
    }
}

/// Whether the value of a boolean setting switches it on: after trimming
/// and without regard to ASCII case it is `1`, `true`, `yes` or `on`.
pub open spec fn switches_on(value: Seq<char>) -> bool {
    let v = ascii_lower_seq(strip(value, Strip::Whitespace));
    v == "1"@ || v == "true"@ || v == "yes"@ || v == "on"@
}

/// Whether a boolean setting is switched on; an unset one is off.
pub fn env_flag_enabled(value: Option<&str>) -> (on: bool)
    ensures
        on == (match setting_text(value) {
            Some(v) => switches_on(v),
            None => false,
        }),
{
    match value {
        None => false,
        Some(text) => {
            let raw = chars_of(text);
            let trimmed = strip_chars(&raw, Strip::Whitespace);
            let mut lower: Vec<char> = Vec::new();
            let mut i: usize = 0;
            while i < trimmed.len()
                invariant
                    i <= trimmed.len(),
                    lower.len() == i,
                    forall|k: int| 0 <= k < i ==> lower[k] == ascii_lower_seq(trimmed@)[k],
                decreases trimmed.len() - i,
            {
                lower.push(ascii_lower_char(trimmed[i]));
                i += 1;
            }
            assert(lower@ =~= ascii_lower_seq(trimmed@));
            let one = chars_of("1");
            let yes = chars_of("yes");
            let on = chars_of("on");
            let truth = chars_of("true");
            same_chars(&lower, &one) || same_chars(&lower, &truth) || same_chars(&lower, &yes)
                || same_chars(&lower, &on)
        },
    }
}

} // verus!
