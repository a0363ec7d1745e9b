//! What administrators tell the bot, and invitations.

use vstd::prelude::*;

use crate::item::str_view;
use crate::num::{decimal, law_numbers_are_read_back, parse_unsigned, parse_unsigned_of};
use crate::text::{
    all_in, chars_of, copy_range, has_prefix, is_space, law_trimming_takes_the_ends,
    law_white_space_around_is_trimmed, law_white_space_parts_words, lemma_nothing_to_trim,
    starts_with, str_same, string_of, trim_of, trimmed, words, words_of, CharClass,
};

verus! {

/// A command.
pub enum Command {
    /// Someone may verify themselves anew.
    ResetTrust(String),
    /// What the last hours brought is asked for.
    SourceStats(u32),
    /// Nothing for the bot.
    Other,
}

/// How many hours are asked for, from one to the hours of 30 days: the second
/// word, if it is a number, and else a day.
pub open spec fn hours_in(body: Seq<char>) -> int {
    let ws = words(body);
    let asked = if ws.len() > 1 {
        match parse_unsigned(ws[1], 10, 0xffff_ffff) {
            Some(h) => h,
            None => 24,
        }
    } else {
        24
    };
    if asked < 1 {
        1
    } else if asked > 720 {
        720
    } else {
        asked
    }
}

/// Whether a message is a command.
pub open spec fn is_command(text: Seq<char>, c: Command) -> bool {
    let body = trimmed(text);
    let reset = "!reset-trust "@;
    if starts_with(body, reset) {
        c matches Command::ResetTrust(target) && target@ == trimmed(
            body.skip(reset.len() as int),
        )
    } else if starts_with(body, "!source-stats"@) {
        c matches Command::SourceStats(hours) && hours == hours_in(body)
    } else {
        c is Other
    }
}

fn hours_of(body: &[char]) -> (r: u32)
    ensures
        r == hours_in(body@),
{
    let ws = words_of(body);
    assert(ws.deep_view().len() == ws@.len());
    let asked: u32 = if ws.len() > 1 {
        assert(ws.deep_view()[1] == ws@[1]@);
        match parse_unsigned_of(ws[1].as_slice(), 10, 0xffff_ffff) {
            Some(h) => h,
            None => 24,
        }
    } else {
        24
    };
    if asked < 1 {
        1
    } else if asked > 720 {
        720
    } else {
        asked
    }
}

/// Reads a message.
pub fn parse_command(text: &str) -> (r: Command)
    ensures
        is_command(text@, r),
{
    let c = chars_of(text);
    let body = trim_of(c.as_slice(), CharClass::Space);
    if has_prefix(body.as_slice(), "!reset-trust ") {
        let n: usize = chars_of("!reset-trust ").len();
        let rest = copy_range(body.as_slice(), n, body.len());
        assert(rest@ == body@.skip(n as int));
        let target = trim_of(rest.as_slice(), CharClass::Space);
        return Command::ResetTrust(string_of(target.as_slice()));
    }
    if has_prefix(body.as_slice(), "!source-stats") {
        return Command::SourceStats(hours_of(body.as_slice()));
    }
    Command::Other
}

/// What the bot does about a message.
pub enum Reaction {
    /// Nothing.
    Ignore,
    /// Nothing, as only administrators tell the bot what to do.
    Refuse,
    /// It lets someone verify themselves anew.
    ResetTrust(String),
    /// It says what the last hours brought.
    SourceStats(u32),
}

/// Whether a list of users has one in it.
pub open spec fn has_user(users: Seq<Seq<char>>, user: Seq<char>) -> bool {
    users.contains(user)
}

fn user_is_in(users: &[String], user: &str) -> (r: bool)
    ensures
        r == has_user(users.deep_view(), user@),
{
    let n: usize = users.len();
    let mut i: usize = 0;
    while i < n
        invariant
            0 <= i <= n,
            n == users@.len(),
            forall|k: int| 0 <= k < i ==> users.deep_view()[k] != user@,
        decreases n - i,
    {
        assert(users.deep_view()[i as int] == users@[i as int]@);
        if str_same(users[i].as_str(), user) {
            return true;
        }
        i += 1;
    }
    assert(users.deep_view().len() == n);
    false
}

/// Decides what to do about a message: only administrators give commands.
pub fn react(text: &str, sender: &str, admins: &[String]) -> (r: Reaction)
    ensures
        exists|c: Command| #[trigger]
            is_command(text@, c) && match c {
                Command::Other => r is Ignore,
                Command::ResetTrust(target) => if has_user(admins.deep_view(), sender@) {
                    r matches Reaction::ResetTrust(t) && t@ == target@
                } else {
                    r is Refuse
                },
                Command::SourceStats(hours) => if has_user(admins.deep_view(), sender@) {
                    r == Reaction::SourceStats(hours)
                } else {
                    r is Refuse
                },
            },
        !has_user(admins.deep_view(), sender@) ==> r is Ignore || r is Refuse,
{
    let command = parse_command(text);
    let admin = user_is_in(admins, sender);
    assert(is_command(text@, command));
    match command {
        Command::Other => Reaction::Ignore,
        Command::ResetTrust(target) => if admin {
            Reaction::ResetTrust(target)
        } else {
            Reaction::Refuse
        },
        Command::SourceStats(hours) => if admin {
            Reaction::SourceStats(hours)
        } else {
            Reaction::Refuse
        },
    }
}

// ---------------------------------------------------------------------------
// Invitations
// ---------------------------------------------------------------------------

/// Whether the bot follows an invitation: from those who may invite it, or from
/// anyone where nobody is named.
pub fn accepts_invite(allowed: &[String], sender: &str) -> (r: bool)
    ensures
        r == (allowed@.len() == 0 || has_user(allowed.deep_view(), sender@)),
{
    allowed.len() == 0 || user_is_in(allowed, sender)
}

/// The servers that a room is joined by way of: that of who sent the invitation,
/// and that of the room, if it is another one.
pub open spec fn servers(sender: Seq<char>, room: Option<Seq<char>>) -> Seq<Seq<char>> {
    match room {
        Some(r) => if r == sender {
            seq![sender]
        } else {
            seq![sender, r]
        },
        None => seq![sender],
    }
}

/// The servers that a room is joined by way of.
pub fn servers_of(sender: &str, room: Option<&str>) -> (r: Vec<String>)
    ensures
        r.deep_view() == servers(sender@, str_view(room)),
{
    let mut out: Vec<String> = Vec::new();
    let first = sender.to_owned();
    out.push(first);
    assert(first.deep_view() == first@);
    assert(out.deep_view() =~= seq![sender@]);
    if let Some(r) = room {
        if !str_same(r, sender) {
            let second = r.to_owned();
            out.push(second);
            assert(second.deep_view() == second@);
            assert(out.deep_view() =~= seq![sender@, r@]);
        }
    }
    out
}

/// How often the bot tries to join a room.
pub const MAX_ATTEMPTS: u32 = 8;

/// What came of trying to join a room.
#[derive(Clone, Copy, PartialEq, Eq, Structural)]
pub enum JoinResult {
    /// The bot is in the room.
    Joined,
    /// It cannot join.
    Terminal,
    /// It could not join this time.
    Failed,
}

/// What the bot does next about a room.
#[derive(Clone, Copy, PartialEq, Eq, Structural)]
pub enum JoinAction {
    /// Nothing.
    Stop,
    /// It waits for some seconds and tries again.
    RetryAfter(u64),
}

/// The seconds to wait before attempt `n + 1`: two at first, twice as many each
/// time, but at most 300.
pub open spec fn join_delay(n: int) -> int
    decreases n,
{
    if n <= 1 {
        2
    } else if 2 * join_delay(n - 1) < 300 {
        2 * join_delay(n - 1)
    } else {
        300
    }
}

proof fn lemma_join_delay(n: int)
    ensures
        2 <= join_delay(n) <= 300,
    decreases n,
{
    if n > 1 {
        lemma_join_delay(n - 1);
    }
}

/// The seconds to wait before attempt `attempt + 1`.
pub fn delay_after(attempt: u32) -> (r: u64)
    ensures
        r == join_delay(attempt as int),
{
    let mut delay: u64 = 2;
    let mut i: u32 = 1;
    while i < attempt
        invariant
            1 <= i,
            i <= attempt || (attempt == 0 && i == 1),
            delay == join_delay(i as int),
            delay <= 300,
        decreases attempt - i,
    {
        proof {
            lemma_join_delay(i as int);
        }
        delay = if 2 * delay < 300 {
            2 * delay
        } else {
            300
        };
        i += 1;
    }
    assert(join_delay(0) == join_delay(1));
    delay
}

/// Decides what to do after an attempt to join a room.
pub fn after_join(attempt: u32, result: JoinResult) -> (r: JoinAction)
    ensures
        r == if result == JoinResult::Failed && attempt < MAX_ATTEMPTS {
            JoinAction::RetryAfter(join_delay(attempt as int) as u64)
        } else {
            JoinAction::Stop
        },
        attempt >= 8 ==> r == JoinAction::Stop,
        result == JoinResult::Failed && attempt < 8 ==> r is RetryAfter,
{
    match result {
        JoinResult::Failed => if attempt < MAX_ATTEMPTS {
            JoinAction::RetryAfter(delay_after(attempt))
        } else {
            JoinAction::Stop
        },
        _ => JoinAction::Stop,
    }
}

// ---------------------------------------------------------------------------
// Laws
// ---------------------------------------------------------------------------

/// The number of hours that is given with a question is taken as it is, from one to the hours
/// of 30 days; without a number it is a day.
pub proof fn law_hours_are_read(n: nat, c: Command)
    requires
        n <= 0xffff_ffff,
    ensures
        is_command("!source-stats "@ + decimal(n), c) && 1 <= n <= 720 ==> c
            == Command::SourceStats(n as u32),
        is_command("!source-stats "@ + decimal(n), c) && n > 720 ==> c == Command::SourceStats(720),
        is_command("!source-stats "@ + decimal(n), c) && n == 0 ==> c == Command::SourceStats(1),
        is_command("!source-stats"@, c) ==> c == Command::SourceStats(24),
{
    reveal_strlit("!source-stats ");
    reveal_strlit("!source-stats");
    reveal_strlit("!reset-trust ");
    let head = "!source-stats"@;
    let digits = decimal(n);
    let text = "!source-stats "@ + digits;
    law_numbers_are_read_back(n, 0xffff_ffff, n);
    assert("!source-stats "@ == head + seq![' ']);
    assert(forall|i: int| 0 <= i < head.len() ==> !is_space(#[trigger] head[i]));
    assert forall|i: int| 0 <= i < digits.len() implies !is_space(#[trigger] digits[i]) by {
        assert('0' <= digits[i] <= '9');
    }
    law_white_space_parts_words(head, ' ', digits);
    law_white_space_parts_words(digits, ' ', seq![]);
    assert(words(head) == seq![head]);
    assert(digits.len() > 0);
    assert(words(digits) == seq![digits]);
    assert(words(text) == seq![head] + seq![digits]);
    assert(words(text)[1] == digits);
    assert(text.last() == digits.last());
    assert(!is_space(digits[digits.len() - 1]));
    lemma_nothing_to_trim(text);
    lemma_nothing_to_trim(head);
    assert(text[1] == 's');
    assert(!starts_with(text, "!reset-trust "@)) by {
        if starts_with(text, "!reset-trust "@) {
            assert(text.subrange(0, 13)[1] == text[1]);
        }
    }
    assert(!starts_with(head, "!reset-trust "@)) by {
        if starts_with(head, "!reset-trust "@) {
            assert(head.subrange(0, 13)[1] == head[1]);
        }
    }
    assert(text.subrange(0, 13) == head);
    assert(head.subrange(0, 13) == head);
}

/// Who may verify themselves anew is the one that is named behind the command, whatever white
/// space stands around the command and the name.
pub proof fn law_targets_are_read(
    a: Seq<char>,
    b: Seq<char>,
    target: Seq<char>,
    d: Seq<char>,
    c: Command,
)
    requires
        all_in(a, CharClass::Space),
        all_in(b, CharClass::Space),
        all_in(d, CharClass::Space),
        target.len() > 0,
        !is_space(target[0]),
        !is_space(target.last()),
    ensures
        is_command(a + ("!reset-trust "@ + (b + target)) + d, c) ==> (c matches
            Command::ResetTrust(t) && t@ == target),
{
    reveal_strlit("!reset-trust ");
    let head = "!reset-trust "@;
    let none = Seq::<char>::empty();
    let text = head + (b + target);
    assert(text.last() == target.last());
    law_white_space_around_is_trimmed(a, text, d);
    law_white_space_around_is_trimmed(b, target, none);
    assert(b + target + none == b + target);
    assert(text.subrange(0, head.len() as int) == head);
    assert(text.skip(head.len() as int) == b + target);
}

/// A message that does not begin with an exclamation mark is no command.
pub proof fn law_talk_is_no_command(text: Seq<char>, c: Command)
    requires
        text.len() > 0,
        !is_space(text[0]),
        text[0] != '!',
        is_command(text, c),
    ensures
        c is Other,
{
    reveal_strlit("!reset-trust ");
    reveal_strlit("!source-stats");
    law_trimming_takes_the_ends(text, CharClass::Space);
    let t = trimmed(text);
    let (a, b) = choose|a: Seq<char>, b: Seq<char>|
        text == #[trigger] (a + t + b) && all_in(a, CharClass::Space) && all_in(
            b,
            CharClass::Space,
        );
    assert(!CharClass::Space.holds(text[0]));
    if a.len() > 0 {
        assert(CharClass::Space.holds(a[0]));
        assert(text[0] == a[0]);
    }
    if t.len() > 0 {
        assert(t[0] == text[0]);
        if starts_with(t, "!reset-trust "@) {
            assert(t.subrange(0, 13)[0] == t[0]);
        }
        if starts_with(t, "!source-stats"@) {
            assert(t.subrange(0, 13)[0] == t[0]);
        }
    }
}

/// The waits between attempts to join a room start with two seconds and double each time, up
/// to five minutes.
pub proof fn law_waits_double(n: int)
    requires
        n >= 1,
    ensures
        join_delay(1) == 2,
        join_delay(n) <= join_delay(n + 1) <= 300,
        join_delay(n) < 150 ==> join_delay(n + 1) == 2 * join_delay(n),
        join_delay(n) >= 150 ==> join_delay(n + 1) == 300,
{
    lemma_join_delay(n);
}

/// A room is joined by way of the server of who sent the invitation, and then of that of the
/// room; no server is named twice.
pub proof fn law_servers_are_named_once(sender: Seq<char>, room: Seq<char>)
    ensures
        servers(sender, Some(room))[0] == sender,
        servers(sender, Some(room)).contains(room),
        servers(sender, Some(room)).no_duplicates(),
        forall|i: int|
            0 <= i < servers(sender, Some(room)).len() ==> (#[trigger] servers(
                sender,
                Some(room),
            )[i] == sender || servers(sender, Some(room))[i] == room),
        servers(sender, None) == seq![sender],
{
    let all = servers(sender, Some(room));
    if room != sender {
        assert(all[1] == room);
    } else {
        assert(all[0] == room);
    }
}

} // verus!
