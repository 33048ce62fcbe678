//! Node names: the prefixes that say what a name stands for, and the slug that
//! makes a node name out of a human one.

use crate::text::{chars_of, is_alphanumeric_ascii, joined2, lower, lower_char, starts_with, strip_prefix, stripped};
use vstd::prelude::*;

verus! {

/// A sendspin output that has a graph node of its own.
pub const SENDSPIN_NODE_PREFIX: &'static str = "sendspin-out-";

/// A sendspin device: a virtual output, reached through a group anchor.
pub const SENDSPIN_DEV_PREFIX: &'static str = "sendspin-dev-";

/// An AirPlay 2 receiver: a virtual output.
pub const AP2_DEV_PREFIX: &'static str = "ap2-dev-";

/// A remote PipeWire host: a virtual output.
pub const PWSINK_DEV_PREFIX: &'static str = "pwsink-dev-";

/// The session names this daemon advertises to remote PipeWire hosts.
pub const PWSINK_SESSION_PREFIX: &'static str = "pwrouter-";

/// The anchor sink of a sync group.
pub const SYNC_GRP_PREFIX: &'static str = "sync-grp-";

/// The node of the AirPlay receive source.
pub const AIRPLAY_NODE_NAME: &'static str = "airplay-in";

/// The kinds of virtual outputs.
#[derive(Clone, Copy, Debug, PartialEq, Eq, Structural)]
pub enum OutputKind {
    Sendspin,
    Airplay2,
    PwSink,
}

/// The prefix of a kind's node names.
pub open spec fn kind_prefix(k: OutputKind) -> Seq<char> {
    match k {
        OutputKind::Sendspin => SENDSPIN_DEV_PREFIX@,
        OutputKind::Airplay2 => AP2_DEV_PREFIX@,
        OutputKind::PwSink => PWSINK_DEV_PREFIX@,
    }
}

/// The kind of output a node name stands for.
pub open spec fn kind_of(name: Seq<char>) -> Option<OutputKind> {
    if SENDSPIN_DEV_PREFIX@.is_prefix_of(name) {
        Some(OutputKind::Sendspin)
    } else if AP2_DEV_PREFIX@.is_prefix_of(name) {
        Some(OutputKind::Airplay2)
    } else if PWSINK_DEV_PREFIX@.is_prefix_of(name) {
        Some(OutputKind::PwSink)
    } else {
        None
    }
}

impl OutputKind {
    /// Every kind.
    pub fn all() -> (r: Vec<OutputKind>)
        ensures
            r@ == seq![OutputKind::Sendspin, OutputKind::Airplay2, OutputKind::PwSink],
            forall|k: OutputKind| r@.contains(k),
    {
        let r = vec![OutputKind::Sendspin, OutputKind::Airplay2, OutputKind::PwSink];
        proof {
            assert(r@[0] == OutputKind::Sendspin);
            assert(r@[1] == OutputKind::Airplay2);
            assert(r@[2] == OutputKind::PwSink);
        }
        r
    }

    /// The prefix of this kind's node names.
    pub fn prefix(self) -> (r: &'static str)
        ensures
            r@ == kind_prefix(self),
    {
        match self {
            OutputKind::Sendspin => SENDSPIN_DEV_PREFIX,
            OutputKind::Airplay2 => AP2_DEV_PREFIX,
            OutputKind::PwSink => PWSINK_DEV_PREFIX,
        }
    }

    /// The kind of output `node_name` stands for.
    pub fn of(node_name: &str) -> (r: Option<OutputKind>)
        ensures
            r == kind_of(node_name@),
    {
        if starts_with(node_name, SENDSPIN_DEV_PREFIX) {
            Some(OutputKind::Sendspin)
        } else if starts_with(node_name, AP2_DEV_PREFIX) {
            Some(OutputKind::Airplay2)
        } else if starts_with(node_name, PWSINK_DEV_PREFIX) {
            Some(OutputKind::PwSink)
        } else {
            None
        }
    }

    /// What to call this kind in a message.
    pub fn human(self) -> (r: &'static str)
        ensures
            r@ == kind_human(self),
    {
        match self {
            OutputKind::Sendspin => "sendspin device",
            OutputKind::Airplay2 => "AirPlay 2 receiver",
            OutputKind::PwSink => "PipeWire host",
        }
    }
}

/// What to call a kind in a message.
pub open spec fn kind_human(k: OutputKind) -> Seq<char> {
    match k {
        OutputKind::Sendspin => "sendspin device"@,
        OutputKind::Airplay2 => "AirPlay 2 receiver"@,
        OutputKind::PwSink => "PipeWire host"@,
    }
}

/// What to call an output of this kind in a message, "output" where the name is
/// none of the virtual ones.
pub fn kind_or_output(kind: Option<OutputKind>) -> (r: &'static str)
    ensures
        r@ == match kind {
            Some(k) => kind_human(k),
            None => "output"@,
        },
{
    match kind {
        Some(k) => k.human(),
        None => "output",
    }
}

/// The prefixes of the kinds exclude one another: a name has one kind at most.
pub proof fn lemma_kinds_disjoint(name: Seq<char>)
    ensures
        forall|k: OutputKind|
            #![trigger kind_prefix(k)]
            kind_prefix(k).is_prefix_of(name) <==> kind_of(name) == Some(k),
        SYNC_GRP_PREFIX@.is_prefix_of(name) ==> kind_of(name) is None,
{
    reveal_strlit("sendspin-dev-");
    reveal_strlit("ap2-dev-");
    reveal_strlit("pwsink-dev-");
    reveal_strlit("sync-grp-");
    assert forall|p: Seq<char>, i: int| #![trigger p[i]]
        p.is_prefix_of(name) && 0 <= i < p.len() implies name[i] == p[i] by {
        assert(name.subrange(0, p.len() as int)[i] == p[i]);
    }
    assert(SENDSPIN_DEV_PREFIX@[0] == 's' && SENDSPIN_DEV_PREFIX@[1] == 'e');
    assert(AP2_DEV_PREFIX@[0] == 'a');
    assert(PWSINK_DEV_PREFIX@[0] == 'p');
    assert(SYNC_GRP_PREFIX@[0] == 's' && SYNC_GRP_PREFIX@[1] == 'y');
}

// ---- slugs -------------------------------------------------------------------

/// A character of a slug: lower-case ASCII letters and digits stay, everything
/// else becomes `_`.
pub open spec fn slug_char(c: char) -> char {
    if is_alphanumeric_ascii(c) {
        lower(c)
    } else {
        '_'
    }
}

/// The slug of a human name.
pub open spec fn slug(name: Seq<char>) -> Seq<char> {
    name.map_values(|c: char| slug_char(c))
}

/// The slug of a human name: ASCII letters and digits in lower case, `_` for
/// every other character.
pub fn slugify(name: &str) -> (r: String)
    ensures
        r@ == slug(name@),
{
    let x = chars_of(name);
    let mut out: String = String::new();
    let mut i: usize = 0;
    while i < x.len()
        invariant
            x@ == name@,
            i <= x@.len(),
            out@ == slug(name@).take(i as int),
        decreases x.len() - i,
    {
        let c = x[i];
        if ('a' <= c && c <= 'z') || ('A' <= c && c <= 'Z') || ('0' <= c && c <= '9') {
            out.push(lower_char(c));
        } else {
            out.push('_');
        }
        assert(out@ =~= slug(name@).take(i + 1));
        i += 1;
    }
    assert(out@ =~= slug(name@));
    out
}

/// The slug of a slug is the slug itself.
pub proof fn law_slugs_are_stable(name: Seq<char>)
    ensures
        slug(slug(name)) == slug(name),
{
    assert(slug(slug(name)) =~= slug(name));
}

// ---- display names -----------------------------------------------------------

/// A character of a display name.
pub open spec fn display_char(c: char) -> char {
    if c == '_' || c == '-' {
        ' '
    } else {
        c
    }
}

/// `s` with a blank for each `_` and `-`.
pub open spec fn spaced(s: Seq<char>) -> Seq<char> {
    s.map_values(|c: char| display_char(c))
}

/// The name of an output as a person reads it: what follows its prefix, with
/// blanks for `_` and `-`. A name without one of the prefixes stands as it is.
pub open spec fn display_name(node_name: Seq<char>) -> Seq<char> {
    if SENDSPIN_NODE_PREFIX@.is_prefix_of(node_name) {
        spaced(node_name.skip(SENDSPIN_NODE_PREFIX@.len() as int))
    } else if SENDSPIN_DEV_PREFIX@.is_prefix_of(node_name) {
        spaced(node_name.skip(SENDSPIN_DEV_PREFIX@.len() as int))
    } else if AP2_DEV_PREFIX@.is_prefix_of(node_name) {
        spaced(node_name.skip(AP2_DEV_PREFIX@.len() as int))
    } else if PWSINK_DEV_PREFIX@.is_prefix_of(node_name) {
        spaced(node_name.skip(PWSINK_DEV_PREFIX@.len() as int))
    } else {
        node_name
    }
}

fn with_blanks(s: &str) -> (r: String)
    ensures
        r@ == spaced(s@),
{
    let x = chars_of(s);
    let mut out: String = String::new();
    let mut i: usize = 0;
    while i < x.len()
        invariant
            x@ == s@,
            i <= x@.len(),
            out@ == spaced(s@).take(i as int),
        decreases x.len() - i,
    {
        if x[i] == '_' || x[i] == '-' {
            out.push(' ');
        } else {
            out.push(x[i]);
        }
        assert(out@ =~= spaced(s@).take(i + 1));
        i += 1;
    }
    assert(out@ =~= spaced(s@));
    out
}

/// The name of an output as a person reads it.
pub fn output_display_name(node_name: &str) -> (r: String)
    ensures
        r@ == display_name(node_name@),
{
    if let Some(rest) = strip_prefix(node_name, SENDSPIN_NODE_PREFIX) {
        return with_blanks(&rest);
    }
    if let Some(rest) = strip_prefix(node_name, SENDSPIN_DEV_PREFIX) {
        return with_blanks(&rest);
    }
    if let Some(rest) = strip_prefix(node_name, AP2_DEV_PREFIX) {
        return with_blanks(&rest);
    }
    if let Some(rest) = strip_prefix(node_name, PWSINK_DEV_PREFIX) {
        return with_blanks(&rest);
    }
    String::from_str(node_name)
}

// ---- derived node names ------------------------------------------------------

/// The output node of a sendspin device with this name.
pub fn device_node_name(display_name: &str) -> (r: String)
    ensures
        r@ == SENDSPIN_DEV_PREFIX@ + slug(display_name@),
{
    let s = slugify(display_name);
    joined2(SENDSPIN_DEV_PREFIX, &s)
}

/// The output node of a remote PipeWire host with this name.
pub fn target_node_name(display_name: &str) -> (r: String)
    ensures
        r@ == PWSINK_DEV_PREFIX@ + slug(display_name@),
{
    let s = slugify(display_name);
    joined2(PWSINK_DEV_PREFIX, &s)
}

/// The session advertised for a target: `pwrouter-` and what follows the prefix
/// of the target's node name, or the whole name where the prefix is missing.
pub open spec fn session_name(node_name: Seq<char>) -> Seq<char> {
    PWSINK_SESSION_PREFIX@ + match stripped(node_name, PWSINK_DEV_PREFIX@) {
        Some(rest) => rest,
        None => node_name,
    }
}

/// The session advertised for the target `node_name`.
pub fn session_name_for(node_name: &str) -> (r: String)
    ensures
        r@ == session_name(node_name@),
{
    match strip_prefix(node_name, PWSINK_DEV_PREFIX) {
        Some(rest) => joined2(PWSINK_SESSION_PREFIX, &rest),
        None => joined2(PWSINK_SESSION_PREFIX, node_name),
    }
}

/// A session name of the development tone sender.
pub const SPIKE_SESSION_NAME: &'static str = "pw-audio-router-spike";

/// Whether a discovered session is one this daemon advertises itself.
pub open spec fn own_advert(label: Seq<char>) -> bool {
    PWSINK_SESSION_PREFIX@.is_prefix_of(label) || label == SPIKE_SESSION_NAME@
}

/// Whether a discovered session is one this daemon advertises itself, so that it
/// is no target.
pub fn is_own_advert(label: &str) -> (r: bool)
    ensures
        r == own_advert(label@),
{
    starts_with(label, PWSINK_SESSION_PREFIX) || crate::text::same(label, SPIKE_SESSION_NAME)
}

/// Every session advertised for a target is recognised as this daemon's own, so
/// no advert of ours ever comes back as a target.
pub proof fn law_own_sessions_are_own_adverts(node_name: Seq<char>)
    ensures
        own_advert(session_name(node_name)),
{
    let s = session_name(node_name);
    assert(s.subrange(0, PWSINK_SESSION_PREFIX@.len() as int) =~= PWSINK_SESSION_PREFIX@);
}

/// Two targets that differ behind the prefix get sessions that differ.
pub proof fn law_sessions_are_distinct(a: Seq<char>, b: Seq<char>)
    requires
        PWSINK_DEV_PREFIX@.is_prefix_of(a),
        PWSINK_DEV_PREFIX@.is_prefix_of(b),
        session_name(a) == session_name(b),
    ensures
        a == b,
{
    let p = PWSINK_DEV_PREFIX@;
    let q = PWSINK_SESSION_PREFIX@;
    assert(session_name(a).skip(q.len() as int) =~= a.skip(p.len() as int));
    assert(session_name(b).skip(q.len() as int) =~= b.skip(p.len() as int));
    assert(a =~= p + a.skip(p.len() as int));
    assert(b =~= p + b.skip(p.len() as int));
}

/// An output is called by what follows its prefix, character by character, with a blank
/// for each `_` and `-`; a name without a prefix stands as it is.
pub proof fn law_outputs_are_called_by_what_follows_the_prefix(rest: Seq<char>, i: int)
    requires
        0 <= i < rest.len(),
    ensures
        ({
            let a = display_name(SENDSPIN_DEV_PREFIX@ + rest);
            let b = display_name(AP2_DEV_PREFIX@ + rest);
            let c = display_name(PWSINK_DEV_PREFIX@ + rest);
            &&& a.len() == rest.len() && b == a && c == a
            &&& (rest[i] == '_' || rest[i] == '-') ==> a[i] == ' '
            &&& !(rest[i] == '_' || rest[i] == '-') ==> a[i] == rest[i]
        }),
{
    lemma_behind_prefix(SENDSPIN_DEV_PREFIX@, rest);
    lemma_behind_prefix(AP2_DEV_PREFIX@, rest);
    lemma_behind_prefix(PWSINK_DEV_PREFIX@, rest);
    lemma_kinds_disjoint(SENDSPIN_DEV_PREFIX@ + rest);
    lemma_kinds_disjoint(AP2_DEV_PREFIX@ + rest);
    lemma_kinds_disjoint(PWSINK_DEV_PREFIX@ + rest);
    assert(kind_prefix(OutputKind::Sendspin) == SENDSPIN_DEV_PREFIX@);
    assert(kind_prefix(OutputKind::Airplay2) == AP2_DEV_PREFIX@);
    assert(kind_prefix(OutputKind::PwSink) == PWSINK_DEV_PREFIX@);
    lemma_no_output_prefix(SENDSPIN_DEV_PREFIX@ + rest);
    lemma_no_output_prefix(AP2_DEV_PREFIX@ + rest);
    lemma_no_output_prefix(PWSINK_DEV_PREFIX@ + rest);
}

proof fn lemma_behind_prefix(prefix: Seq<char>, rest: Seq<char>)
    ensures
        prefix.is_prefix_of(prefix + rest),
        (prefix + rest).skip(prefix.len() as int) == rest,
{
    assert(prefix =~= (prefix + rest).subrange(0, prefix.len() as int));
    assert((prefix + rest).skip(prefix.len() as int) =~= rest);
}

proof fn lemma_no_output_prefix(name: Seq<char>)
    requires
        SENDSPIN_DEV_PREFIX@.is_prefix_of(name) || AP2_DEV_PREFIX@.is_prefix_of(name)
            || PWSINK_DEV_PREFIX@.is_prefix_of(name),
    ensures
        !SENDSPIN_NODE_PREFIX@.is_prefix_of(name),
{
    reveal_strlit("sendspin-out-");
    reveal_strlit("sendspin-dev-");
    reveal_strlit("ap2-dev-");
    reveal_strlit("pwsink-dev-");
    let out = "sendspin-out-"@;
    if out.is_prefix_of(name) {
        assert(out == name.subrange(0, out.len() as int));
        assert(name[0] == out[0]);
        assert(name[9] == out[9]);
        if SENDSPIN_DEV_PREFIX@.is_prefix_of(name) {
            let dev = "sendspin-dev-"@;
            assert(dev == name.subrange(0, dev.len() as int));
            assert(name[9] == dev[9]);
        } else if AP2_DEV_PREFIX@.is_prefix_of(name) {
            let dev = "ap2-dev-"@;
            assert(dev == name.subrange(0, dev.len() as int));
            assert(name[0] == dev[0]);
        } else {
            let dev = "pwsink-dev-"@;
            assert(dev == name.subrange(0, dev.len() as int));
            assert(name[0] == dev[0]);
        }
    }
}

/// A slug keeps each character in its place: a lower-case letter or a digit as it is, an
/// upper-case letter as its lower case, and everything else as `_`.
pub proof fn law_a_slug_is_letters_digits_and_underscores(name: Seq<char>, i: int)
    requires
        0 <= i < name.len(),
    ensures
        slug(name).len() == name.len(),
        ('a' <= name[i] <= 'z') || ('0' <= name[i] <= '9') ==> slug(name)[i] == name[i],
        ('A' <= name[i] <= 'Z') ==> slug(name)[i] as int == name[i] as int + 32,
        !(('a' <= name[i] <= 'z') || ('A' <= name[i] <= 'Z') || ('0' <= name[i] <= '9')) ==> slug(
            name,
        )[i] == '_',
{
}

} // verus!
