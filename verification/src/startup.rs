//! What is settled before the program runs: who this instance is, and which
//! port it serves.

use vstd::prelude::*;
use vstd::string::*;

use crate::ids;
use crate::ids::new_id;
use crate::proto::{CoreEvent, CoreEventView};
use crate::store::{Config, ConfigView};
use crate::text;
use crate::text::{ascii_upper, cat3, chars_of, same_text, take_chars, to_decimal};
use crate::ui;

verus! {

/// The number of an instance where no lock was left.
pub const NO_LOCK_LEFT: u32 = 99;

/// How many ports are tried.
pub const PORT_TRIES: u16 = 20;

// ---------------------------------------------------------------------------
// Arguments
// ---------------------------------------------------------------------------

/// What the command line sets.
#[derive(Debug, PartialEq, Eq)]
pub struct Overrides {
    pub name: Option<String>,
    pub port: Option<u16>,
}

/// [`Overrides`] as the contracts speak of it.
#[verifier::ext_equal]
pub struct OverridesView {
    pub name: Option<Seq<char>>,
    pub port: Option<u16>,
}

impl DeepView for Overrides {
    type V = OverridesView;

    open spec fn deep_view(&self) -> OverridesView {
        OverridesView {
            name: self.name.deep_view(),
            port: self.port.deep_view(),
        }
    }
}

/// The arguments from `i` on: `--name` and `--port` take the one that follows,
/// whatever else there is does not count. The last one of a kind holds.
pub open spec fn overrides_from(args: Seq<Seq<char>>, i: int, so_far: OverridesView) -> OverridesView
    decreases args.len() - i,
{
    if i < 0 || i >= args.len() {
        so_far
    } else if args[i] == "--name"@ && i + 1 < args.len() {
        overrides_from(
            args,
            i + 2,
            OverridesView { name: Some(args[i + 1]), port: so_far.port },
        )
    } else if args[i] == "--port"@ && i + 1 < args.len() {
        overrides_from(
            args,
            i + 2,
            OverridesView { name: so_far.name, port: exact_port(args[i + 1]) },
        )
    } else {
        overrides_from(args, i + 1, so_far)
    }
}

/// The port that a text is, without space around it.
pub open spec fn exact_port(s: Seq<char>) -> Option<u16> {
    if text::trimmed(s) == s {
        match ui::port_of(s) {
            Some(p) => Some(p as u16),
            None => None,
        }
    } else {
        None
    }
}

fn read_port(s: &str) -> (r: Option<u16>)
    ensures
        r == exact_port(s@),
{
    let t = text::trim(s);
    if same_text(t.as_str(), s) {
        ui::parse_port(s)
    } else {
        None
    }
}

/// Reads the arguments; the first one is the program itself.
pub fn read_args(args: &Vec<String>) -> (r: Overrides)
    ensures
        r.deep_view() == overrides_from(
            args.deep_view(),
            1,
            OverridesView { name: None, port: None },
        ),
{
    let ghost all = args.deep_view();
    let ghost whole = overrides_from(all, 1, OverridesView { name: None, port: None });
    let n: usize = args.len();
    let mut out = Overrides { name: None, port: None };
    let mut i: usize = 1;
    while i < n
        invariant
            n == args@.len(),
            all == args.deep_view(),
            1 <= i,
            overrides_from(all, i as int, out.deep_view()) == whole,
        decreases n - i,
    {
        assert(all[i as int] == args@[i as int]@);
        if same_text(args[i].as_str(), "--name") && i < n - 1 {
            assert(all[i + 1] == args@[i + 1]@);
            out.name = Some(args[i + 1].clone());
            i = i + 2;
        } else if same_text(args[i].as_str(), "--port") && i < n - 1 {
            assert(all[i + 1] == args@[i + 1]@);
            out.port = read_port(args[i + 1].as_str());
            i = i + 2;
        } else {
            i = i + 1;
        }
    }
    out
}

// ---------------------------------------------------------------------------
// Instances
// ---------------------------------------------------------------------------

/// The name of an instance: the one asked for, else the device's own, with a
/// number where it is not the first instance, or with `suffix` where the
/// numbers ran out.
pub open spec fn instance_name(
    own: Seq<char>,
    asked: Option<Seq<char>>,
    number: u32,
    suffix: Seq<char>,
) -> Seq<char> {
    match asked {
        Some(n) => n,
        None => if 1 < number < NO_LOCK_LEFT {
            own + " ("@ + text::decimal(number as nat) + ")"@
        } else if number == NO_LOCK_LEFT {
            own + " ("@ + suffix + ")"@
        } else {
            own
        },
    }
}

/// Whether an instance is somebody else than the device for a while.
pub open spec fn is_ephemeral(over: OverridesView, number: u32) -> bool {
    number > 1 || over.name is Some || over.port is Some
}

/// The settings that an instance runs with.
pub open spec fn instance_config(
    c: ConfigView,
    over: OverridesView,
    number: u32,
    suffix: Seq<char>,
    id: Seq<char>,
) -> ConfigView {
    ConfigView {
        device_id: if is_ephemeral(over, number) {
            id
        } else {
            c.device_id
        },
        device_name: instance_name(c.device_name, over.name, number, suffix),
        http_port: match over.port {
            Some(p) => p,
            None => c.http_port,
        },
        ..c
    }
}

/// The settings of an instance, with the random texts given.
pub fn configure_as(config: Config, over: &Overrides, number: u32, suffix: &str, id: String) -> (r:
    Config)
    ensures
        r.deep_view() == instance_config(
            config.deep_view(),
            over.deep_view(),
            number,
            suffix@,
            id@,
        ),
{
    let device_name = match &over.name {
        Some(n) => n.clone(),
        None => if 1 < number && number < NO_LOCK_LEFT {
            let d = to_decimal(number as u64);
            let mut out = cat3(config.device_name.as_str(), " (", d.as_str());
            out.append(")");
            out
        } else if number == NO_LOCK_LEFT {
            let mut out = cat3(config.device_name.as_str(), " (", suffix);
            out.append(")");
            out
        } else {
            config.device_name.clone()
        },
    };
    let ephemeral = match (&over.name, over.port) {
        (None, None) => number > 1,
        _ => true,
    };
    let http_port = match over.port {
        Some(p) => p,
        None => config.http_port,
    };
    Config {
        device_id: if ephemeral {
            id
        } else {
            config.device_id
        },
        device_name,
        http_port,
        download_dir: config.download_dir,
        auto_receive: config.auto_receive,
        close_action: config.close_action,
    }
}

/// The settings of an instance. Where it needs a name or an identity of its
/// own, chance gives them.
pub fn configure(config: Config, over: &Overrides, number: u32) -> (r: Config)
    ensures
        exists|suffix: Seq<char>, id: Seq<char>|
            suffix.len() == 4 && (forall|i: int| 0 <= i < 4 ==> ids::is_lower_hex(#[trigger] suffix[i]))
                && ids::is_uuid_text(id) && r.deep_view() == #[trigger] instance_config(
                config.deep_view(),
                over.deep_view(),
                number,
                suffix,
                id,
            ),
{
    let other = new_id();
    let suffix = take_chars(other.as_str(), 4);
    let id = new_id();
    let ghost idv = id@;
    assert forall|i: int| 0 <= i < 4 implies ids::is_lower_hex(#[trigger] suffix@[i]) by {
        assert(suffix@[i] == other@[i]);
    }
    let r = configure_as(config, over, number, suffix.as_str(), id);
    assert(ids::is_uuid_text(idv));
    r
}

/// The first instance without arguments is the device itself, and no other
/// instance is taken for it.
pub proof fn law_instances_are_told_apart(
    c: ConfigView,
    over: OverridesView,
    number: u32,
    suffix: Seq<char>,
    id: Seq<char>,
)
    requires
        id != c.device_id,
    ensures
        ({
            let r = instance_config(c, over, number, suffix, id);
            &&& (r.device_id == c.device_id) == !is_ephemeral(over, number)
            &&& !is_ephemeral(over, number) ==> r == c
        }),
{
}

// ---------------------------------------------------------------------------
// The port
// ---------------------------------------------------------------------------

/// The last port that is tried.
pub open spec fn last_port(start: u16) -> nat {
    if start + 19 > 65535 {
        65535
    } else {
        (start + 19) as nat
    }
}

/// What the user is told of the port that was found.
pub open spec fn port_told(start: u16, found: Option<u16>) -> Option<CoreEventView> {
    match found {
        Some(p) => if p == start {
            None
        } else {
            Some(
                CoreEventView::Info(
                    "端口 "@ + text::decimal(start as nat) + " 已被占用，本次改用 "@
                        + text::decimal(p as nat),
                ),
            )
        },
        None => Some(
            CoreEventView::Error {
                context: "端口"@,
                message: "端口 "@ + text::decimal(start as nat) + " 至 "@ + text::decimal(
                    last_port(start),
                ) + " 均被占用，传输服务可能无法启动"@,
            },
        ),
    }
}

/// Takes the port that was found. The settings that are kept are not touched.
pub fn take_port(config: &mut Config, found: Option<u16>) -> (r: Option<CoreEvent>)
    ensures
        final(config).deep_view() == (ConfigView {
            http_port: (match found {
                Some(p) => p,
                None => old(config).http_port,
            }),
            ..old(config).deep_view()
        }),
        r.deep_view() == port_told(old(config).http_port, found),
{
    let start = config.http_port;
    let a = to_decimal(start as u64);
    match found {
        Some(p) => {
            if p == start {
                return None;
            }
            config.http_port = p;
            let b = to_decimal(p as u64);
            let mut out = cat3("端口 ", a.as_str(), " 已被占用，本次改用 ");
            out.append(b.as_str());
            Some(CoreEvent::Info(out))
        },
        None => {
            let last: u64 = if start > 65516 {
                65535
            } else {
                start as u64 + 19
            };
            let b = to_decimal(last);
            let mut out = cat3("端口 ", a.as_str(), " 至 ");
            out.append(b.as_str());
            out.append(" 均被占用，传输服务可能无法启动");
            Some(CoreEvent::Error { context: "端口".to_owned(), message: out })
        },
    }
}

// ---------------------------------------------------------------------------
// Remote sessions
// ---------------------------------------------------------------------------

/// Whether the name of a session is that of one on a remote screen.
pub open spec fn is_remote_name(s: Seq<char>) -> bool {
    s.len() >= 4 && text::upper_of(s[0]) == 'R' && text::upper_of(s[1]) == 'D' && text::upper_of(
        s[2],
    ) == 'P' && s[3] == '-'
}

pub fn is_remote_session(session: Option<&str>) -> (r: bool)
    ensures
        r == (session is Some && is_remote_name(session->Some_0@)),
{
    match session {
        Some(s) => {
            let v = chars_of(s);
            v.len() >= 4 && ascii_upper(v[0]) == 'R' && ascii_upper(v[1]) == 'D' && ascii_upper(
                v[2],
            ) == 'P' && v[3] == '-'
        },
        None => false,
    }
}

// ---------------------------------------------------------------------------
// Laws of starting
// ---------------------------------------------------------------------------

/// A name and a port that are asked for are taken, in either order; of two
/// names the last one holds.
pub proof fn law_arguments_are_taken(
    program: Seq<char>,
    name: Seq<char>,
    other: Seq<char>,
    port: Seq<char>,
)
    ensures
        ({
            let none = OverridesView { name: None, port: None };
            let a = seq![program, "--name"@, name, "--port"@, port];
            let b = seq![program, "--port"@, port, "--name"@, name];
            let c = seq![program, "--name"@, other, "--name"@, name];
            &&& overrides_from(a, 1, none) == (OverridesView {
                name: Some(name),
                port: exact_port(port),
            })
            &&& overrides_from(b, 1, none) == (OverridesView {
                name: Some(name),
                port: exact_port(port),
            })
            &&& overrides_from(c, 1, none) == (OverridesView { name: Some(name), port: None })
        }),
{
    reveal_with_fuel(overrides_from, 4);
    reveal_strlit("--name");
    reveal_strlit("--port");
    assert("--name"@[2] != "--port"@[2]);
}

/// Arguments that are neither change nothing.
pub proof fn law_other_arguments_do_not_count(args: Seq<Seq<char>>, i: int, so_far: OverridesView)
    requires
        0 <= i,
        forall|k: int|
            i <= k < args.len() ==> #[trigger] args[k] != "--name"@ && args[k] != "--port"@,
    ensures
        overrides_from(args, i, so_far) == so_far,
    decreases args.len() - i,
{
    if i < args.len() {
        assert(args[i] != "--name"@);
        law_other_arguments_do_not_count(args, i + 1, so_far);
    }
}

/// A port is read back from its digits; a number that is none is not taken.
pub proof fn law_port_reads_back(p: nat)
    ensures
        p <= 65535 ==> ui::port_of(text::decimal(p)) == Some(p),
        p <= 65535 ==> exact_port(text::decimal(p)) == Some(p as u16),
        p > 65535 ==> ui::port_of(text::decimal(p)) is None,
        p > 65535 ==> exact_port(text::decimal(p)) is None,
{
    let s = text::decimal(p);
    crate::engine::law_number_reads_back(p, 65535);
    let cut = text::law_trimming_takes_only_space(s);
    assert(text::is_digit(s[0]));
    assert(text::is_digit(s[s.len() - 1]));
    assert(cut.0 == 0);
    assert(cut.1 == s.len());
    assert(s.subrange(0, s.len() as int) =~= s);
}

/// Instances with numbers of their own go by names of their own; a name that
/// was asked for is taken as it is.
pub proof fn law_instances_have_names_of_their_own(
    own: Seq<char>,
    a: u32,
    b: u32,
    suffix: Seq<char>,
    asked: Seq<char>,
)
    requires
        1 < a < NO_LOCK_LEFT,
        1 < b < NO_LOCK_LEFT,
        a != b,
    ensures
        instance_name(own, None, a, suffix) != instance_name(own, None, b, suffix),
        instance_name(own, None, a, suffix) != own,
        instance_name(own, None, 1, suffix) == own,
        instance_name(own, Some(asked), a, suffix) == asked,
        instance_name(own, Some(asked), 1, suffix) == asked,
{
    reveal_strlit(" (");
    reveal_strlit(")");
    let x = instance_name(own, None, a, suffix);
    let y = instance_name(own, None, b, suffix);
    let da = text::decimal(a as nat);
    let db = text::decimal(b as nat);
    if x == y {
        assert(da =~= x.subrange(own.len() as int + 2, x.len() - 1));
        assert(db =~= y.subrange(own.len() as int + 2, y.len() - 1));
        crate::engine::law_numbers_are_told_apart(a as nat, b as nat);
    }
    assert(x.len() > own.len());
}

/// An instance takes the port that was asked for, and shares all settings but
/// name, port and identity with the device.
pub proof fn law_instances_share_the_settings(
    c: ConfigView,
    over: OverridesView,
    number: u32,
    suffix: Seq<char>,
    id: Seq<char>,
)
    ensures
        ({
            let r = instance_config(c, over, number, suffix, id);
            &&& over.port is Some ==> Some(r.http_port) == over.port
            &&& over.port is None ==> r.http_port == c.http_port
            &&& over.name is Some ==> Some(r.device_name) == over.name
            &&& r.download_dir == c.download_dir
            &&& r.auto_receive == c.auto_receive
            &&& r.close_action == c.close_action
            &&& number > 1 || over.name is Some || over.port is Some ==> r.device_id == id
            &&& number <= 1 && over.name is None && over.port is None ==> r.device_id
                == c.device_id
        }),
{
}

/// The user is told of the port exactly where it is not the one in the
/// settings.
pub proof fn law_another_port_is_told(start: u16, found: Option<u16>)
    ensures
        port_told(start, found) is None <==> found == Some(start),
        found is None ==> port_told(start, found)->Some_0 is Error,
        found is Some && found != Some(start) ==> port_told(start, found)->Some_0 is Info,
{
}

} // verus!
