//! The configuration of the daemon, and what it falls back on.
use vstd::prelude::*;
#[allow(unused_imports)]
use vstd::utf8::{decode_utf8, valid_utf8};

use crate::bytes::from_utf8;
use crate::profile::{Profile, DEFAULT_SOCKET_PATH};
#[allow(unused_imports)]
use crate::profile::sanitizing_puts_in_range;
use crate::text::{is_blank, same_text, strings, trim};
#[allow(unused_imports)]
use crate::text::{text_of, texts_of, trimmed};

verus! {

/// Where the configuration is kept.
pub const CONFIG_PATH: &'static str = "/etc/ds4linux/config.json";

/// The group of the socket where nothing else is known.
pub const SOCKET_GROUP: &'static str = "users";

/// The configuration of the daemon.
#[derive(Debug, PartialEq)]
pub struct DaemonConfig {
    /// Where it listens.
    pub socket_path: String,
    /// The profile in use.
    pub profile: Profile,
    /// The user who uses the controller.
    pub target_user: String,
    /// The group that may use the socket.
    pub socket_group: String,
}

impl Clone for DaemonConfig {
    fn clone(&self) -> (r: DaemonConfig)
        ensures
            r == *self,
    {
        DaemonConfig {
            socket_path: self.socket_path.clone(),
            profile: self.profile.clone(),
            target_user: self.target_user.clone(),
            socket_group: self.socket_group.clone(),
        }
    }
}

/// The environment variables that a configuration falls back on.
#[derive(Debug, PartialEq)]
pub struct Environment {
    /// `DS4LINUX_TARGET_USER`
    pub target_user: Option<String>,
    /// `SUDO_USER`
    pub sudo_user: Option<String>,
    /// `USER`
    pub user: Option<String>,
    /// `DS4LINUX_SOCKET_GROUP`
    pub socket_group: Option<String>,
}

/// What the program that tells the primary group of a user replied.
#[derive(Debug, PartialEq)]
pub struct GroupReply {
    /// Whether it succeeded.
    pub success: bool,
    /// What it printed.
    pub stdout: Vec<u8>,
}

/// `text` without the white space at its ends, unless nothing is left.
pub open spec fn unless_blank(text: Seq<char>) -> Option<Seq<char>> {
    if trimmed(text).len() > 0 {
        Some(trimmed(text))
    } else {
        None
    }
}

/// What a variable is set to; a blank one counts as not set.
pub open spec fn variable_value(variable: Option<String>) -> Option<Seq<char>> {
    match variable {
        Some(text) => unless_blank(text@),
        None => None,
    }
}

/// The user who uses the controller, as the environment has it: the one named for this purpose;
/// else the one who became root, unless that was root; else the current one; else root.
pub open spec fn fallback_user(env: Environment) -> Seq<char> {
    let sudo = variable_value(env.sudo_user);
    if variable_value(env.target_user) is Some {
        variable_value(env.target_user)->0
    } else if sudo is Some && sudo->0 != "root"@ {
        sudo->0
    } else if variable_value(env.user) is Some {
        variable_value(env.user)->0
    } else {
        "root"@
    }
}

/// The group of the socket: the one that the environment names; else the primary group of the
/// user; else the one for want of a better.
pub open spec fn fallback_group(
    variable: Option<String>,
    primary_group: Option<Seq<char>>,
) -> Seq<char> {
    match variable_value(variable) {
        Some(group) => group,
        None => match primary_group {
            Some(group) => group,
            None => SOCKET_GROUP@,
        },
    }
}

/// The primary group that a reply names, for a user whose name is not blank.
pub open spec fn replied_group(user: Seq<char>, reply: Option<GroupReply>) -> Option<Seq<char>> {
    match reply {
        Some(reply) => if trimmed(user).len() > 0 && reply.success && valid_utf8(reply.stdout@) {
            unless_blank(decode_utf8(reply.stdout@))
        } else {
            None
        },
        None => None,
    }
}

/// `text` without the white space at its ends, unless nothing is left.
fn nonblank(text: &str) -> (r: Option<String>)
    ensures
        text_of(r) == unless_blank(text@),
{
    let trimmed_text = trim(text);
    if trimmed_text.as_str().is_empty() {
        None
    } else {
        Some(trimmed_text)
    }
}

/// What a variable is set to; a blank one counts as not set.
pub fn env_value(variable: &Option<String>) -> (r: Option<String>)
    ensures
        text_of(r) == variable_value(*variable),
{
    match variable {
        Some(text) => nonblank(text.as_str()),
        None => None,
    }
}

/// The user who uses the controller, as the environment has it.
pub fn default_target_user(env: &Environment) -> (r: String)
    ensures
        r@ == fallback_user(*env),
{
    if let Some(user) = env_value(&env.target_user) {
        return user;
    }
    if let Some(user) = env_value(&env.sudo_user) {
        if !same_text(user.as_str(), "root") {
            return user;
        }
    }
    match env_value(&env.user) {
        Some(user) => user,
        None => "root".to_owned(),
    }
}

/// The group of the socket, as the environment and the groups of the user have it.
pub fn default_socket_group(variable: &Option<String>, primary_group: Option<String>) -> (r: String)
    ensures
        r@ == fallback_group(*variable, text_of(primary_group)),
{
    match env_value(variable) {
        Some(group) => group,
        None => match primary_group {
            Some(group) => group,
            None => SOCKET_GROUP.to_owned(),
        },
    }
}

/// The arguments of the program that tells the primary group of `user`; there is none to tell
/// for a blank name.
pub fn primary_group_query(user: &str) -> (r: Option<Vec<String>>)
    ensures
        r is Some <==> trimmed(user@).len() > 0,
        r matches Some(args) ==> texts_of(args@) == seq!["-gn"@, user@],
{
    if is_blank(user) {
        return None;
    }
    let args = strings(&["-gn", user]);
    assert(texts_of(args@) =~= seq!["-gn"@, user@]);
    Some(args)
}

/// The primary group of `user`, by the reply of the program that tells it.
pub fn primary_group_for_user(user: &str, reply: Option<GroupReply>) -> (r: Option<String>)
    ensures
        text_of(r) == replied_group(user@, reply),
{
    if is_blank(user) {
        return None;
    }
    match reply {
        Some(reply) => {
            if !reply.success {
                return None;
            }
            match from_utf8(reply.stdout) {
                Some(group) => nonblank(group.as_str()),
                None => None,
            }
        },
        None => None,
    }
}

impl DaemonConfig {
    /// The configuration before anything is known: default socket and profile, no user, no
    /// group.
    pub fn unset() -> (r: DaemonConfig)
        ensures
            r.socket_path@ == DEFAULT_SOCKET_PATH@,
            r.socket_path@ == "/run/ds4linux/ds4linux.sock"@,
            r.profile == Profile::defaults(),
            r.target_user@ == Seq::<char>::empty(),
            r.socket_group@ == Seq::<char>::empty(),
    {
        DaemonConfig {
            socket_path: DEFAULT_SOCKET_PATH.to_owned(),
            profile: Profile::default(),
            target_user: String::new(),
            socket_group: String::new(),
        }
    }

    /// Nothing in the configuration is missing or out of range.
    pub open spec fn is_complete(self) -> bool {
        &&& self.profile.is_sane()
        &&& trimmed(self.target_user@).len() > 0
        &&& trimmed(self.socket_group@).len() > 0
    }
}

/// Brings the profile into range, and fills in the user and the group where they are blank. Says
/// whether the group is still blank: it is that of the user whom the configuration now names.
pub fn sanitize_config(config: &mut DaemonConfig, env: &Environment) -> (needs_group: bool)
    ensures
        final(config).socket_path == old(config).socket_path,
        final(config).profile == old(config).profile.sanitized(),
        trimmed(old(config).target_user@).len() > 0 ==> final(config).target_user
            == old(config).target_user,
        trimmed(old(config).target_user@).len() == 0 ==> final(config).target_user@
            == fallback_user(*env),
        trimmed(old(config).socket_group@).len() > 0 ==> final(config).socket_group
            == old(config).socket_group,
        trimmed(old(config).socket_group@).len() == 0 ==> (match variable_value(env.socket_group) {
            Some(group) => final(config).socket_group@ == group,
            None => final(config).socket_group == old(config).socket_group,
        }),
        needs_group <==> trimmed(old(config).socket_group@).len() == 0 && variable_value(
            env.socket_group,
        ) is None,
{
    config.profile.sanitize();
    if is_blank(config.target_user.as_str()) {
        config.target_user = default_target_user(env);
    }
    if is_blank(config.socket_group.as_str()) {
        match env_value(&env.socket_group) {
            Some(group) => {
                config.socket_group = group;
            },
            None => {
                return true;
            },
        }
    }
    false
}

/// Fills in the group that [`sanitize_config`] left blank.
pub fn fill_socket_group(config: &mut DaemonConfig, env: &Environment, primary_group: Option<String>)
    ensures
        *final(config) == (DaemonConfig {
            socket_group: final(config).socket_group,
            ..*old(config)
        }),
        final(config).socket_group@ == fallback_group(env.socket_group, text_of(primary_group)),
{
    config.socket_group = default_socket_group(&env.socket_group, primary_group);
}

/// White space can be taken from the ends once, not twice.
pub proof fn trimming_twice_is_trimming_once(s: Seq<char>)
    ensures
        trimmed(trimmed(s)) == trimmed(s),
    decreases s.len(),
{
    if s.len() > 0 {
        if crate::text::white_space(s.first()) {
            trimming_twice_is_trimming_once(s.drop_first());
        } else if crate::text::white_space(s.last()) {
            trimming_twice_is_trimming_once(s.drop_last());
        }
    }
}

/// The user whom a configuration falls back on has a name.
pub proof fn fallback_user_has_a_name(env: Environment)
    ensures
        trimmed(fallback_user(env)).len() > 0,
{
    reveal_strlit("root");
    assert(trimmed("root"@) == "root"@);
    if env.target_user is Some {
        trimming_twice_is_trimming_once(env.target_user->0@);
    }
    if env.sudo_user is Some {
        trimming_twice_is_trimming_once(env.sudo_user->0@);
    }
    if env.user is Some {
        trimming_twice_is_trimming_once(env.user->0@);
    }
}

/// The group that a configuration falls back on has a name, whatever was replied about the user.
pub proof fn fallback_group_has_a_name(
    variable: Option<String>,
    user: Seq<char>,
    reply: Option<GroupReply>,
)
    ensures
        trimmed(fallback_group(variable, replied_group(user, reply))).len() > 0,
{
    reveal_strlit("users");
    assert(trimmed("users"@) == "users"@);
    if variable is Some {
        trimming_twice_is_trimming_once(variable->0@);
    }
    if reply is Some {
        trimming_twice_is_trimming_once(decode_utf8(reply->0.stdout@));
    }
}

/// A configuration to which all that happens when it is loaded has happened is complete: its
/// profile is in range, and it names a user and a group.
pub proof fn loaded_configurations_are_complete(
    before: DaemonConfig,
    after: DaemonConfig,
    env: Environment,
    reply: Option<GroupReply>,
)
    requires
        after.profile == before.profile.sanitized(),
        trimmed(before.target_user@).len() > 0 ==> after.target_user == before.target_user,
        trimmed(before.target_user@).len() == 0 ==> after.target_user@ == fallback_user(env),
        trimmed(before.socket_group@).len() > 0 ==> after.socket_group == before.socket_group,
        trimmed(before.socket_group@).len() == 0 ==> after.socket_group@ == fallback_group(
            env.socket_group,
            replied_group(after.target_user@, reply),
        ),
    ensures
        after.is_complete(),
{
    sanitizing_puts_in_range(before.profile);
    fallback_user_has_a_name(env);
    fallback_group_has_a_name(env.socket_group, after.target_user@, reply);
}

} // verus!
