//! The core: what each command of the user leads to.

use vstd::prelude::*;
use vstd::string::*;

use crate::client;
use crate::client::{cancel_url, CollectError};
use crate::discovery;
use crate::discovery::note_peer;
use crate::ids;
use crate::ids::new_id;
use crate::net::platform;
use crate::net;
use crate::paths::System;
use crate::proto;
use crate::proto::{
    Addr, AddrView, ChatMessage, ChatMessageView, CoreEvent, CoreEventView, DeviceInfo,
    DeviceInfoView, DeviceView, UiCommand, UiCommandView, DEFAULT_HTTP_PORT, PROTOCOL_VERSION,
    WEB_PEER_ID,
};
use crate::server;
use crate::server::{make_text_message, Decision, DecisionView, ServerState, ServerView};
use crate::store::Config;
use crate::text;
use crate::text::{cat, cat3, chars_of, contains_char, same_text, split, string_range, to_decimal, trim};
use crate::web::web_text;

verus! {

// ---------------------------------------------------------------------------
// Addresses that the user types
// ---------------------------------------------------------------------------

/// The value of decimal digits.
pub open spec fn number(s: Seq<char>) -> nat
    decreases s.len(),
{
    if s.len() == 0 {
        0
    } else {
        10 * number(s.drop_last()) + text::digit_value(s.last()) as nat
    }
}

pub open spec fn all_digits(s: Seq<char>) -> bool {
    s.len() > 0 && forall|i: int| 0 <= i < s.len() ==> text::is_digit(#[trigger] s[i])
}

/// The number that a text is, up to a limit.
pub open spec fn number_upto(s: Seq<char>, limit: nat) -> Option<nat> {
    if all_digits(s) && number(s) <= limit {
        Some(number(s))
    } else {
        None
    }
}

/// The value of a part of an address: at most three digits, no zero in front.
pub open spec fn octet_of(s: Seq<char>) -> Option<nat> {
    if s.len() <= 3 && (s.len() > 1 ==> s[0] != '0') {
        number_upto(s, 255)
    } else {
        None
    }
}

/// The address of version 4 and the port that a text is.
pub open spec fn socket_of(s: Seq<char>) -> Option<((u8, u8, u8, u8), u16)> {
    let p = text::pieces(s, ':', ':');
    let o = text::pieces(p[0], '.', '.');
    if p.len() == 2 && o.len() == 4 && octet_of(o[0]) is Some && octet_of(o[1]) is Some && octet_of(
        o[2],
    ) is Some && octet_of(o[3]) is Some && number_upto(p[1], 65535) is Some {
        Some(
            (
                (
                    octet_of(o[0])->Some_0 as u8,
                    octet_of(o[1])->Some_0 as u8,
                    octet_of(o[2])->Some_0 as u8,
                    octet_of(o[3])->Some_0 as u8,
                ),
                number_upto(p[1], 65535)->Some_0 as u16,
            ),
        )
    } else {
        None
    }
}

proof fn lemma_number_grows(s: Seq<char>, n: int)
    requires
        0 <= n <= s.len(),
        forall|i: int| 0 <= i < s.len() ==> text::is_digit(#[trigger] s[i]),
    ensures
        number(s.take(n)) <= number(s),
    decreases s.len(),
{
    if n == s.len() {
        assert(s.take(n) =~= s);
    } else {
        let t = s.drop_last();
        assert(t.take(n) =~= s.take(n));
        assert forall|i: int| 0 <= i < t.len() implies text::is_digit(#[trigger] t[i]) by {
            assert(t[i] == s[i]);
        }
        lemma_number_grows(t, n);
    }
}

pub fn parse_number(s: &str, limit: u32) -> (r: Option<u32>)
    requires
        limit <= 65535,
    ensures
        match r {
            Some(n) => number_upto(s@, limit as nat) == Some(n as nat),
            None => number_upto(s@, limit as nat) is None,
        },
{
    let v = chars_of(s);
    if v.len() == 0 {
        return None;
    }
    let mut acc: u32 = 0;
    let mut i: usize = 0;
    assert(v@.take(0) =~= Seq::<char>::empty());
    while i < v.len()
        invariant
            i <= v@.len(),
            v@ == s@,
            limit <= 65535,
            acc <= limit,
            acc == number(v@.take(i as int)),
            forall|k: int| 0 <= k < i ==> text::is_digit(#[trigger] v@[k]),
        decreases v@.len() - i,
    {
        let c = v[i];
        if !('0' <= c && c <= '9') {
            assert(!text::is_digit(v@[i as int]));
            return None;
        }
        proof {
            assert(v@.take(i + 1).drop_last() =~= v@.take(i as int));
            assert(v@.take(i + 1).last() == c);
        }
        let d: u32 = c as u32 - 48;
        acc = 10 * acc + d;
        if acc > limit {
            proof {
                if all_digits(s@) {
                    lemma_number_grows(v@, i + 1);
                }
            }
            return None;
        }
        i = i + 1;
    }
    assert(v@.take(i as int) =~= v@);
    Some(acc)
}

fn parse_octet(s: &str) -> (r: Option<u8>)
    ensures
        match r {
            Some(n) => octet_of(s@) == Some(n as nat),
            None => octet_of(s@) is None,
        },
{
    let v = chars_of(s);
    if v.len() > 3 || (v.len() > 1 && v[0] == '0') {
        return None;
    }
    match parse_number(s, 255) {
        Some(n) => Some(n as u8),
        None => None,
    }
}

fn parts(s: &str, sep: char) -> (r: Vec<String>)
    ensures
        r.deep_view() == text::pieces(s@, sep, sep),
        r@.len() == text::pieces(s@, sep, sep).len(),
        r@.len() > 0,
{
    let v = chars_of(s);
    assert(v@.skip(0) =~= v@);
    let r = split(&v, 0, sep, sep);
    assert(r.deep_view().len() == r@.len());
    r
}

pub fn parse_socket(s: &str) -> (r: Option<((u8, u8, u8, u8), u16)>)
    ensures
        r == socket_of(s@),
{
    let p = parts(s, ':');
    assert(p.deep_view()[0] == p@[0]@);
    if p.len() != 2 {
        return None;
    }
    assert(p.deep_view()[1] == p@[1]@);
    let o = parts(p[0].as_str(), '.');
    if o.len() != 4 {
        return None;
    }
    assert(o.deep_view()[0] == o@[0]@);
    assert(o.deep_view()[1] == o@[1]@);
    assert(o.deep_view()[2] == o@[2]@);
    assert(o.deep_view()[3] == o@[3]@);
    match (
        parse_octet(o[0].as_str()),
        parse_octet(o[1].as_str()),
        parse_octet(o[2].as_str()),
        parse_octet(o[3].as_str()),
        parse_number(p[1].as_str(), 65535),
    ) {
        (Some(a), Some(b), Some(c), Some(d), Some(port)) => Some(((a, b, c, d), port as u16)),
        _ => None,
    }
}

/// A text without the prefix of a web address, however often it is there.
pub open spec fn without_scheme(s: Seq<char>) -> Seq<char>
    decreases s.len(),
{
    if s.len() >= 7 && s.take(7) == "http://"@ {
        without_scheme(s.skip(7))
    } else {
        s
    }
}

pub open spec fn host_text(host: Seq<char>) -> Seq<char> {
    without_scheme(text::trimmed(host))
}

/// The host that the user means.
pub fn clean_host(host: &str) -> (r: String)
    ensures
        r@ == host_text(host@),
{
    let t = trim(host);
    let v = chars_of(t.as_str());
    let n: usize = v.len();
    let mut i: usize = 0;
    assert(v@.skip(0) =~= v@);
    proof {
        reveal_strlit("http://");
    }
    while n - i >= 7 && v[i] == 'h' && v[i + 1] == 't' && v[i + 2] == 't' && v[i + 3] == 'p'
        && v[i + 4] == ':' && v[i + 5] == '/' && v[i + 6] == '/'
        invariant
            n == v@.len(),
            i <= n,
            "http://"@ =~= seq!['h', 't', 't', 'p', ':', '/', '/'],
            without_scheme(v@.skip(i as int)) == without_scheme(v@),
        decreases n - i,
    {
        assert(v@.skip(i as int).take(7) =~= "http://"@);
        assert(v@.skip(i as int).skip(7) =~= v@.skip(i + 7));
        i = i + 7;
    }
    proof {
        let rest = v@.skip(i as int);
        if rest.len() >= 7 && rest.take(7) == "http://"@ {
            let x = rest.take(7);
            assert(x[0] == v@[i as int] && x[1] == v@[i + 1] && x[2] == v@[i + 2] && x[3] == v@[i
                + 3] && x[4] == v@[i + 4] && x[5] == v@[i + 5] && x[6] == v@[i + 6]);
        }
    }
    assert(v@.subrange(i as int, n as int) =~= v@.skip(i as int));
    string_range(&v, i, n)
}

/// Where a device is said to be.
#[derive(Debug, PartialEq, Eq)]
pub struct Target {
    pub addr: Addr,
    pub port: u16,
}

/// [`Target`] as the contracts speak of it.
#[verifier::ext_equal]
pub struct TargetView {
    pub addr: AddrView,
    pub port: u16,
}

impl DeepView for Target {
    type V = TargetView;

    open spec fn deep_view(&self) -> TargetView {
        TargetView {
            addr: self.addr.deep_view(),
            port: self.port.deep_view(),
        }
    }
}

impl Clone for Target {
    fn clone(&self) -> (r: Self)
        ensures
            r.deep_view() == self.deep_view(),
    {
        let r = Target {
            addr: self.addr.clone(),
            port: self.port,
        };
        r
    }
}

/// How an address and a port are written.
pub open spec fn target_text(t: TargetView) -> Seq<char> {
    match t.addr {
        AddrView::V4(_, _, _, _) => proto::addr_text(t.addr) + ":"@ + text::decimal(
            t.port as nat,
        ),
        AddrView::V6(s) => "["@ + s + "]:"@ + text::decimal(t.port as nat),
    }
}

impl Target {
    pub fn text(&self) -> (r: String)
        ensures
            r@ == target_text(self.deep_view()),
    {
        let port = to_decimal(self.port as u64);
        let addr = self.addr.text();
        match &self.addr {
            Addr::V4(_, _, _, _) => cat3(addr.as_str(), ":", port.as_str()),
            Addr::V6(_) => {
                let mut out = cat3("[", addr.as_str(), "]:");
                out.append(port.as_str());
                out
            },
        }
    }
}

/// What a host stands for: an address and a port, or an address of version 4
/// alone, which gets the usual port. `v6` is what it is as an address of
/// version 6 with a port.
pub open spec fn target_of(host: Seq<char>, v6: Option<(Seq<char>, u16)>) -> Result<
    TargetView,
    Seq<char>,
> {
    if text::has_char(host, ':') {
        match socket_of(host) {
            Some((ip, port)) => Ok(
                TargetView { addr: AddrView::V4(ip.0, ip.1, ip.2, ip.3), port },
            ),
            None => match v6 {
                Some((s, port)) => Ok(TargetView { addr: AddrView::V6(s), port }),
                None => Err("格式不对，应为 IP 或 IP:端口，如 192.168.1.5"@),
            },
        }
    } else {
        match socket_of(host + ":"@ + text::decimal(DEFAULT_HTTP_PORT as nat)) {
            Some((ip, port)) => Ok(
                TargetView { addr: AddrView::V4(ip.0, ip.1, ip.2, ip.3), port },
            ),
            None => Err("无效的 IP 地址"@),
        }
    }
}

pub open spec fn add_error(message: Seq<char>) -> CoreEventView {
    CoreEventView::Error { context: "添加设备"@, message }
}

fn make_error(context: &str, message: String) -> (r: CoreEvent)
    ensures
        r.deep_view() == (CoreEventView::Error { context: context@, message: message@ }),
{
    CoreEvent::Error { context: context.to_owned(), message }
}

/// The device to ask who it is, or what is wrong with what the user typed.
pub fn connect_target(host: &str, v6: Option<(String, u16)>) -> (r: Result<Target, CoreEvent>)
    ensures
        match r {
            Ok(t) => target_of(host@, v6.deep_view()) == Ok::<_, Seq<char>>(t.deep_view()),
            Err(e) => target_of(host@, v6.deep_view()) is Err && e.deep_view() == add_error(
                target_of(host@, v6.deep_view())->Err_0,
            ),
        },
{
    if contains_char(host, ':') {
        match parse_socket(host) {
            Some((ip, port)) => Ok(Target { addr: Addr::V4(ip.0, ip.1, ip.2, ip.3), port }),
            None => match v6 {
                Some((s, port)) => Ok(Target { addr: Addr::V6(s), port }),
                None => Err(
                    make_error(
                        "添加设备",
                        "格式不对，应为 IP 或 IP:端口，如 192.168.1.5".to_owned(),
                    ),
                ),
            },
        }
    } else {
        let port = to_decimal(DEFAULT_HTTP_PORT as u64);
        let full = cat3(host, ":", port.as_str());
        match parse_socket(full.as_str()) {
            Some((ip, port)) => Ok(Target { addr: Addr::V4(ip.0, ip.1, ip.2, ip.3), port }),
            None => Err(make_error("添加设备", "无效的 IP 地址".to_owned())),
        }
    }
}

proof fn lemma_decimal_number(n: nat)
    ensures
        all_digits(text::decimal(n)),
        number(text::decimal(n)) == n,
        n < 10 ==> text::decimal(n).len() == 1,
        10 <= n ==> text::decimal(n).len() == text::decimal(n / 10).len() + 1,
        n > 0 ==> text::decimal(n)[0] != '0',
    decreases n,
{
    let d = text::decimal(n);
    if n < 10 {
        assert(d.drop_last() =~= Seq::<char>::empty());
        assert(d.last() == text::digit_char(n as int));
        reveal_with_fuel(number, 2);
    } else {
        lemma_decimal_number(n / 10);
        let h = text::decimal(n / 10);
        assert(d.drop_last() =~= h);
        assert(d[0] == h[0]);
        assert forall|i: int| 0 <= i < d.len() implies text::is_digit(#[trigger] d[i]) by {
            if i < h.len() {
                assert(d[i] == h[i]);
            }
        }
    }
}

proof fn lemma_octet_text(n: nat)
    requires
        n <= 255,
    ensures
        octet_of(text::decimal(n)) == Some(n),
        !text::has_char(text::decimal(n), '.'),
        !text::has_char(text::decimal(n), ':'),
{
    lemma_decimal_number(n);
    if n >= 10 {
        lemma_decimal_number(n / 10);
        if n >= 100 {
            lemma_decimal_number(n / 10 / 10);
        }
    }
    lemma_digits_lack(text::decimal(n));
}

proof fn lemma_digits_lack(s: Seq<char>)
    requires
        all_digits(s),
    ensures
        !text::has_char(s, '.'),
        !text::has_char(s, ':'),
{
    assert forall|i: int| 0 <= i < s.len() implies s[i] != '.' && s[i] != ':' by {
        assert(text::is_digit(s[i]));
    }
}

/// What is written for an address of version 4 and a port is read back as
/// that address and that port.
pub proof fn law_address_reads_back(a: u8, b: u8, c: u8, d: u8, port: u16)
    ensures
        socket_of(target_text(TargetView { addr: AddrView::V4(a, b, c, d), port })) == Some(
            ((a, b, c, d), port),
        ),
{
    reveal_strlit(".");
    reveal_strlit(":");
    let ta = text::decimal(a as nat);
    let tb = text::decimal(b as nat);
    let tc = text::decimal(c as nat);
    let td = text::decimal(d as nat);
    let tp = text::decimal(port as nat);
    lemma_octet_text(a as nat);
    lemma_octet_text(b as nat);
    lemma_octet_text(c as nat);
    lemma_octet_text(d as nat);
    lemma_decimal_number(port as nat);
    lemma_digits_lack(tp);
    let ip = proto::addr_text(AddrView::V4(a, b, c, d));
    let s = ip + ":"@ + tp;
    let body = seq![ta, tb, tc, td];
    assert(ip =~= ta.push('.') + tb.push('.') + tc.push('.') + td);
    let s1 = ta;
    let s2 = s1.push('.') + tb;
    let s3 = s2.push('.') + tc;
    assert(ip =~= s3.push('.') + td);
    crate::paths::lemma_pieces_of_plain(ta, '.', '.');
    crate::paths::lemma_pieces_of_plain(tb, '.', '.');
    crate::paths::lemma_pieces_of_plain(tc, '.', '.');
    crate::paths::lemma_pieces_of_plain(td, '.', '.');
    crate::paths::lemma_pieces_concat(s1, '.', tb, '.', '.');
    crate::paths::lemma_pieces_concat(s2, '.', tc, '.', '.');
    crate::paths::lemma_pieces_concat(s3, '.', td, '.', '.');
    assert(text::pieces(ip, '.', '.') =~= body);
    assert(!text::has_char(ip, ':')) by {
        assert forall|i: int| 0 <= i < ip.len() implies ip[i] != ':' by {
            if i < ta.len() {
                assert(ip[i] == ta[i]);
            } else if i == ta.len() {
            } else if i < ta.len() + 1 + tb.len() {
                assert(ip[i] == tb[i - ta.len() - 1]);
            } else if i == ta.len() + 1 + tb.len() {
            } else if i < ta.len() + tb.len() + tc.len() + 2 {
                assert(ip[i] == tc[i - ta.len() - tb.len() - 2]);
            } else if i == ta.len() + tb.len() + tc.len() + 2 {
            } else {
                assert(ip[i] == td[i - ta.len() - tb.len() - tc.len() - 3]);
            }
        }
    }
    assert(s =~= ip.push(':') + tp);
    crate::paths::lemma_pieces_of_plain(ip, ':', ':');
    crate::paths::lemma_pieces_of_plain(tp, ':', ':');
    crate::paths::lemma_pieces_concat(ip, ':', tp, ':', ':');
    assert(text::pieces(s, ':', ':') =~= seq![ip, tp]);
}

// ---------------------------------------------------------------------------
// Commands
// ---------------------------------------------------------------------------

/// A transfer that goes out.
#[derive(Debug, PartialEq, Eq)]
pub struct SendReg {
    pub transfer_id: String,
    /// Where the receiver answers.
    pub base: String,
    /// What the receiver knows it by, once it has agreed.
    pub token: Option<String>,
}

/// [`SendReg`] as the contracts speak of it.
#[verifier::ext_equal]
pub struct SendRegView {
    pub transfer_id: Seq<char>,
    pub base: Seq<char>,
    pub token: Option<Seq<char>>,
}

impl DeepView for SendReg {
    type V = SendRegView;

    open spec fn deep_view(&self) -> SendRegView {
        SendRegView {
            transfer_id: self.transfer_id.deep_view(),
            base: self.base.deep_view(),
            token: self.token.deep_view(),
        }
    }
}

impl Clone for SendReg {
    fn clone(&self) -> (r: Self)
        ensures
            r.deep_view() == self.deep_view(),
    {
        let r = SendReg {
            transfer_id: self.transfer_id.clone(),
            base: self.base.clone(),
            token: self.token.clone(),
        };
        r
    }
}

/// What a command asks of the outside world.
#[derive(Debug, PartialEq, Eq)]
pub enum Action {
    Nothing,
    /// Stores the message and, once it has a number, delivers it.
    SendText { msg: ChatMessage, base: String, sender: DeviceInfo },
    /// Collects the files and sends them.
    SendFiles { transfer_id: String, base: String, peer_id: String, peer_name: String, paths: Vec<String> },
    /// Tells the request that waits what was decided.
    Decide { req_id: String, decision: Decision },
    /// Stops a transfer that goes out, and tells the receiver.
    CancelSend { transfer_id: String, notify: Option<String> },
    /// Stops a transfer that comes in.
    CancelReceive { token: String },
    /// Asks a device who it is.
    Connect { host: String },
    /// Collects the files and publishes them.
    OfferFiles { paths: Vec<String> },
    /// Stores a message.
    StoreMessage { msg: ChatMessage },
    Stop,
}

/// [`Action`] as the contracts speak of it.
#[verifier::ext_equal]
pub enum ActionView {
    Nothing,
    SendText { msg: ChatMessageView, base: Seq<char>, sender: DeviceInfoView },
    SendFiles { transfer_id: Seq<char>, base: Seq<char>, peer_id: Seq<char>, peer_name: Seq<char>, paths: Seq<Seq<char>> },
    Decide { req_id: Seq<char>, decision: DecisionView },
    CancelSend { transfer_id: Seq<char>, notify: Option<Seq<char>> },
    CancelReceive { token: Seq<char> },
    Connect { host: Seq<char> },
    OfferFiles { paths: Seq<Seq<char>> },
    StoreMessage { msg: ChatMessageView },
    Stop,
}

impl DeepView for Action {
    type V = ActionView;

    open spec fn deep_view(&self) -> ActionView {
        match self {
            Action::Nothing => ActionView::Nothing,
            Action::SendText { msg, base, sender } => ActionView::SendText { msg: msg.deep_view(), base: base.deep_view(), sender: sender.deep_view() },
            Action::SendFiles { transfer_id, base, peer_id, peer_name, paths } => ActionView::SendFiles { transfer_id: transfer_id.deep_view(), base: base.deep_view(), peer_id: peer_id.deep_view(), peer_name: peer_name.deep_view(), paths: paths.deep_view() },
            Action::Decide { req_id, decision } => ActionView::Decide { req_id: req_id.deep_view(), decision: decision.deep_view() },
            Action::CancelSend { transfer_id, notify } => ActionView::CancelSend { transfer_id: transfer_id.deep_view(), notify: notify.deep_view() },
            Action::CancelReceive { token } => ActionView::CancelReceive { token: token.deep_view() },
            Action::Connect { host } => ActionView::Connect { host: host.deep_view() },
            Action::OfferFiles { paths } => ActionView::OfferFiles { paths: paths.deep_view() },
            Action::StoreMessage { msg } => ActionView::StoreMessage { msg: msg.deep_view() },
            Action::Stop => ActionView::Stop,
        }
    }
}

/// What the core knows.
#[derive(Debug)]
pub struct Engine {
    pub server: ServerState,
    pub sendings: Vec<SendReg>,
}

/// [`Engine`] as the contracts speak of it.
#[verifier::ext_equal]
pub struct EngineView {
    pub server: ServerView,
    pub sendings: Seq<SendRegView>,
}

impl View for Engine {
    type V = EngineView;

    open spec fn view(&self) -> EngineView {
        EngineView { server: self.server@, sendings: self.sendings.deep_view() }
    }
}

pub open spec fn reg_at(s: Seq<SendRegView>, id: Seq<char>, i: int) -> bool {
    0 <= i < s.len() && s[i].transfer_id == id
}

/// No two transfers have the same id.
pub open spec fn regs_unique(s: Seq<SendRegView>) -> bool {
    forall|i: int, j: int|
        0 <= i < j < s.len() ==> (#[trigger] s[i]).transfer_id != (#[trigger] s[j]).transfer_id
}

pub open spec fn find_reg(s: Seq<SendRegView>, id: Seq<char>) -> Option<int> {
    if exists|i: int| reg_at(s, id, i) {
        Some(choose|i: int| reg_at(s, id, i))
    } else {
        None
    }
}

pub open spec fn without_reg(s: Seq<SendRegView>, id: Seq<char>) -> Seq<SendRegView> {
    match find_reg(s, id) {
        Some(i) => s.remove(i),
        None => s,
    }
}

proof fn lemma_reg_at(s: Seq<SendRegView>, id: Seq<char>, i: int)
    requires
        regs_unique(s),
        reg_at(s, id, i),
    ensures
        find_reg(s, id) == Some(i),
{
    let p = choose|p: int| reg_at(s, id, p);
    assert(reg_at(s, id, p));
    if p < i {
        assert(s[p].transfer_id != s[i].transfer_id);
    } else if i < p {
        assert(s[i].transfer_id != s[p].transfer_id);
    }
}

proof fn lemma_without_reg(s: Seq<SendRegView>, id: Seq<char>)
    requires
        regs_unique(s),
    ensures
        regs_unique(without_reg(s, id)),
        find_reg(without_reg(s, id), id) is None,
        forall|i: int|
            0 <= i < s.len() && (#[trigger] s[i]).transfer_id != id ==> without_reg(
                s,
                id,
            ).contains(s[i]),
{
    let r = without_reg(s, id);
    assert forall|i: int| 0 <= i < s.len() && (#[trigger] s[i]).transfer_id
        != id implies r.contains(s[i]) by {
        match find_reg(s, id) {
            Some(p) => {
                assert(reg_at(s, id, p));
                let k = if i < p {
                    i
                } else {
                    i - 1
                };
                assert(r[k] == s[i]);
            },
            None => {
                assert(r[i] == s[i]);
            },
        }
    }
    match find_reg(s, id) {
        Some(p) => {
            assert(reg_at(s, id, p));
            assert forall|i: int, j: int| 0 <= i < j < r.len() implies (
            #[trigger] r[i]).transfer_id != (#[trigger] r[j]).transfer_id by {
                let a = if i < p {
                    i
                } else {
                    i + 1
                };
                let b = if j < p {
                    j
                } else {
                    j + 1
                };
                assert(s[a].transfer_id != s[b].transfer_id);
            }
            assert forall|i: int| !reg_at(r, id, i) by {
                if reg_at(r, id, i) {
                    let a = if i < p {
                        i
                    } else {
                        i + 1
                    };
                    assert(r[i] == s[a]);
                    if a < p {
                        assert(s[a].transfer_id != s[p].transfer_id);
                    } else {
                        assert(s[p].transfer_id != s[a].transfer_id);
                    }
                }
            }
        },
        None => {},
    }
}

/// The transfers after the receiver of one has agreed to it.
pub open spec fn with_token(s: Seq<SendRegView>, id: Seq<char>, token: Seq<char>) -> Seq<
    SendRegView,
> {
    match find_reg(s, id) {
        Some(i) => s.update(i, SendRegView { token: Some(token), ..s[i] }),
        None => s,
    }
}

/// The device with this id, where it is online.
pub open spec fn online_peer(v: ServerView, id: Seq<char>) -> Option<DeviceView> {
    match discovery::lookup(v.devices, id) {
        Some(d) => if d.online {
            Some(d)
        } else {
            None
        },
        None => None,
    }
}

pub open spec fn not_online(context: Seq<char>) -> CoreEventView {
    CoreEventView::Error { context, message: "对方不在线或未知"@ }
}

/// What a command leads to: the state after it, what the user is told, and
/// what is asked of the outside world. `fresh` is the id of a new transfer.
pub open spec fn outcome(v: EngineView, cmd: UiCommandView, fresh: Seq<char>, now: i64) -> (
    EngineView,
    Option<CoreEventView>,
    ActionView,
) {
    match cmd {
        UiCommandView::SendText { peer_id, text } => match online_peer(v.server, peer_id) {
            None => (v, Some(not_online("发送消息"@)), ActionView::Nothing),
            Some(d) => (
                v,
                None,
                ActionView::SendText {
                    msg: server::text_message(0, peer_id, true, text, now),
                    base: proto::base_url(d.addr, d.info.port),
                    sender: v.server.me,
                },
            ),
        },
        UiCommandView::SendFiles { peer_id, paths } => match online_peer(v.server, peer_id) {
            None => (v, Some(not_online("发送文件"@)), ActionView::Nothing),
            Some(d) => (
                EngineView {
                    sendings: without_reg(v.sendings, fresh).push(
                        SendRegView {
                            transfer_id: fresh,
                            base: proto::base_url(d.addr, d.info.port),
                            token: None,
                        },
                    ),
                    ..v
                },
                None,
                ActionView::SendFiles {
                    transfer_id: fresh,
                    base: proto::base_url(d.addr, d.info.port),
                    peer_id,
                    peer_name: d.info.name,
                    paths,
                },
            ),
        },
        UiCommandView::RespondRequest { req_id, accept, save_dir, overwrite } => (
            EngineView {
                server: ServerView {
                    pending: server::without_request(v.server.pending, req_id),
                    ..v.server
                },
                ..v
            },
            None,
            if server::find_request(v.server.pending, req_id) is Some {
                ActionView::Decide {
                    req_id,
                    decision: DecisionView { accept, save_dir, overwrite },
                }
            } else {
                ActionView::Nothing
            },
        ),
        UiCommandView::CancelTransfer { transfer_id } => match find_reg(v.sendings, transfer_id) {
            Some(i) => (
                EngineView { sendings: v.sendings.remove(i), ..v },
                None,
                ActionView::CancelSend {
                    transfer_id,
                    notify: match v.sendings[i].token {
                        Some(t) => Some(client::cancel_text(v.sendings[i].base, t)),
                        None => None,
                    },
                },
            ),
            None => if server::find_session(v.server.sessions, transfer_id) is Some {
                (
                    EngineView {
                        server: ServerView {
                            sessions: server::without_session(v.server.sessions, transfer_id),
                            ..v.server
                        },
                        ..v
                    },
                    Some(server::ended(transfer_id, Some("已取消"@))),
                    ActionView::CancelReceive { token: transfer_id },
                )
            } else {
                (v, None, ActionView::Nothing)
            },
        },
        UiCommandView::Rename { name } => if text::trimmed(name).len() == 0 {
            (v, None, ActionView::Nothing)
        } else {
            (
                EngineView {
                    server: ServerView {
                        me: DeviceInfoView { name: text::trimmed(name), ..v.server.me },
                        ..v.server
                    },
                    ..v
                },
                None,
                ActionView::Nothing,
            )
        },
        UiCommandView::WebOffer { paths } => (v, None, ActionView::OfferFiles { paths }),
        UiCommandView::WebText { text } => if text::trimmed(text).len() == 0 {
            (v, None, ActionView::Nothing)
        } else {
            (
                v,
                None,
                ActionView::StoreMessage {
                    msg: server::text_message(0, WEB_PEER_ID@, true, text::trimmed(text), now),
                },
            )
        },
        UiCommandView::ConnectPeer { host } => (
            v,
            None,
            ActionView::Connect { host: host_text(host) },
        ),
        UiCommandView::Shutdown => (v, None, ActionView::Stop),
    }
}

impl Engine {
    pub open spec fn wf(&self) -> bool {
        self.server.wf() && regs_unique(self.sendings.deep_view())
    }

    pub fn new(me: DeviceInfo, download_dir: String, system: System) -> (r: Self)
        ensures
            r.wf(),
            r@.sendings == Seq::<SendRegView>::empty(),
            r@.server == (ServerView {
                me: me.deep_view(),
                devices: Seq::empty(),
                download_dir: download_dir@,
                system,
                pending: Seq::empty(),
                sessions: Seq::empty(),
                offers: Seq::empty(),
            }),
    {
        let r = Engine { server: ServerState::new(me, download_dir, system), sendings: Vec::new() };
        assert(r.sendings.deep_view() =~= Seq::<SendRegView>::empty());
        r
    }

    /// Where an online device answers, and its name.
    fn lookup_peer(&self, id: &str) -> (r: Option<(String, String)>)
        requires
            self.wf(),
        ensures
            r.deep_view() == (match online_peer(self@.server, id@) {
                Some(d) => Some((proto::base_url(d.addr, d.info.port), d.info.name)),
                None => None,
            }),
    {
        match self.server.registry.get(id) {
            Some(d) => if d.online {
                Some((d.http_base(), d.info.name.clone()))
            } else {
                None
            },
            None => None,
        }
    }

    fn reg_index(&self, id: &str) -> (r: Option<usize>)
        requires
            self.wf(),
        ensures
            match r {
                Some(i) => find_reg(self@.sendings, id@) == Some(i as int) && i
                    < self.sendings@.len(),
                None => find_reg(self@.sendings, id@) is None,
            },
    {
        let ghost all = self@.sendings;
        let mut i: usize = 0;
        while i < self.sendings.len()
            invariant
                self.wf(),
                all == self@.sendings,
                i <= self.sendings@.len(),
                forall|k: int| 0 <= k < i ==> (#[trigger] all[k]).transfer_id != id@,
            decreases self.sendings@.len() - i,
        {
            assert(all[i as int] == self.sendings@[i as int].deep_view());
            if same_text(self.sendings[i].transfer_id.as_str(), id) {
                proof {
                    assert(reg_at(all, id@, i as int));
                    lemma_reg_at(all, id@, i as int);
                }
                return Some(i);
            }
            i = i + 1;
        }
        None
    }

    fn add_reg(&mut self, id: &str, base: String)
        requires
            old(self).wf(),
        ensures
            final(self).wf(),
            final(self)@ == (EngineView {
                sendings: without_reg(old(self)@.sendings, id@).push(
                    SendRegView { transfer_id: id@, base: base@, token: None },
                ),
                ..old(self)@
            }),
    {
        let ghost all = self@.sendings;
        proof {
            lemma_without_reg(all, id@);
        }
        match self.reg_index(id) {
            Some(i) => {
                let _ = self.sendings.remove(i);
                assert(self@.sendings =~= all.remove(i as int));
            },
            None => {},
        }
        let ghost rest = self@.sendings;
        let reg = SendReg { transfer_id: id.to_owned(), base, token: None };
        self.sendings.push(reg);
        proof {
            let v = self@.sendings;
            assert(v =~= rest.push(reg.deep_view()));
            assert forall|a: int, b: int| 0 <= a < b < v.len() implies (
            #[trigger] v[a]).transfer_id != (#[trigger] v[b]).transfer_id by {
                if b == rest.len() && v[a].transfer_id == id@ {
                    assert(reg_at(rest, id@, a));
                }
            }
        }
    }

    /// Takes a command in. `fresh` is the id of a new transfer.
    pub fn on_command_as(&mut self, cmd: UiCommand, fresh: &str, now: i64) -> (r: (
        Option<CoreEvent>,
        Action,
    ))
        requires
            old(self).wf(),
        ensures
            final(self).wf(),
            ({
                let o = outcome(old(self)@, cmd.deep_view(), fresh@, now);
                &&& final(self)@ == o.0
                &&& r.0.deep_view() == o.1
                &&& r.1.deep_view() == o.2
            }),
            r.1 matches Action::SendText { msg, base: _, sender: _ } ==> (
            cmd matches UiCommand::SendText { peer_id, text } && msg.peer_id@ == peer_id@
                && msg.outgoing && (msg.kind matches proto::MessageKind::Text(t) && t@ == text@)),
            r.1 matches Action::SendFiles { transfer_id, base: _, peer_id, peer_name: _, paths }
                ==> (cmd matches UiCommand::SendFiles { peer_id: asked, paths: chosen } && peer_id@
                == asked@ && paths@ == chosen@ && transfer_id@ == fresh@),
            r.1 matches Action::Decide { req_id, decision } ==> (
            cmd matches UiCommand::RespondRequest { req_id: asked, accept, save_dir, overwrite }
                && req_id@ == asked@ && decision.accept == accept && decision.overwrite == overwrite
                && decision.save_dir.deep_view() == save_dir.deep_view()),
    {
        match cmd {
            UiCommand::SendText { peer_id, text } => {
                match self.lookup_peer(peer_id.as_str()) {
                    None => (
                        Some(
                            make_error(
                                "发送消息",
                                "对方不在线或未知".to_owned(),
                            ),
                        ),
                        Action::Nothing,
                    ),
                    Some((base, _)) => (
                        None,
                        Action::SendText {
                            msg: make_text_message(0, peer_id.as_str(), true, text.as_str(), now),
                            base,
                            sender: self.server.me.clone(),
                        },
                    ),
                }
            },
            UiCommand::SendFiles { peer_id, paths } => {
                match self.lookup_peer(peer_id.as_str()) {
                    None => (
                        Some(
                            make_error(
                                "发送文件",
                                "对方不在线或未知".to_owned(),
                            ),
                        ),
                        Action::Nothing,
                    ),
                    Some((base, peer_name)) => {
                        self.add_reg(fresh, base.clone());
                        (
                            None,
                            Action::SendFiles {
                                transfer_id: fresh.to_owned(),
                                base,
                                peer_id,
                                peer_name,
                                paths,
                            },
                        )
                    },
                }
            },
            UiCommand::RespondRequest { req_id, accept, save_dir, overwrite } => {
                match self.server.respond(req_id.as_str(), accept, save_dir, overwrite) {
                    Some(decision) => (None, Action::Decide { req_id, decision }),
                    None => (None, Action::Nothing),
                }
            },
            UiCommand::CancelTransfer { transfer_id } => {
                match self.reg_index(transfer_id.as_str()) {
                    Some(i) => {
                        let ghost all = self@.sendings;
                        assert(all[i as int] == self.sendings@[i as int].deep_view());
                        proof {
                            lemma_without_reg(all, transfer_id@);
                        }
                        let reg = self.sendings.remove(i);
                        assert(self@.sendings =~= all.remove(i as int));
                        let notify = match reg.token {
                            Some(t) => Some(cancel_url(reg.base.as_str(), t.as_str())),
                            None => None,
                        };
                        (None, Action::CancelSend { transfer_id, notify })
                    },
                    None => {
                        match self.server.cancel_local(transfer_id.as_str()) {
                            Some(e) => (Some(e), Action::CancelReceive { token: transfer_id }),
                            None => (None, Action::Nothing),
                        }
                    },
                }
            },
            UiCommand::Rename { name } => {
                let n = trim(name.as_str());
                let v = chars_of(n.as_str());
                if v.len() > 0 {
                    self.server.me.name = n;
                }
                (None, Action::Nothing)
            },
            UiCommand::WebOffer { paths } => (None, Action::OfferFiles { paths }),
            UiCommand::WebText { text } => {
                let t = trim(text.as_str());
                let v = chars_of(t.as_str());
                if v.len() == 0 {
                    (None, Action::Nothing)
                } else {
                    (None, Action::StoreMessage { msg: web_text(t.as_str(), now) })
                }
            },
            UiCommand::ConnectPeer { host } => (
                None,
                Action::Connect { host: clean_host(host.as_str()) },
            ),
            UiCommand::Shutdown => (None, Action::Stop),
        }
    }

    /// Takes a command in; a new transfer gets a random id.
    pub fn on_command(&mut self, cmd: UiCommand, now: i64) -> (r: (Option<CoreEvent>, Action))
        requires
            old(self).wf(),
        ensures
            final(self).wf(),
            exists|fresh: Seq<char>|
                ids::is_uuid_text(fresh) && {
                    let o = #[trigger] outcome(old(self)@, cmd.deep_view(), fresh, now);
                    &&& final(self)@ == o.0
                    &&& r.0.deep_view() == o.1
                    &&& r.1.deep_view() == o.2
                },
    {
        let fresh = new_id();
        self.on_command_as(cmd, fresh.as_str(), now)
    }

    /// The receiver of a transfer has agreed to it.
    pub fn note_token(&mut self, transfer_id: &str, token: &str)
        requires
            old(self).wf(),
        ensures
            final(self).wf(),
            final(self)@ == (EngineView {
                sendings: with_token(old(self)@.sendings, transfer_id@, token@),
                ..old(self)@
            }),
    {
        let ghost all = self@.sendings;
        match self.reg_index(transfer_id) {
            Some(i) => {
                assert(all[i as int] == self.sendings@[i as int].deep_view());
                let next = SendReg {
                    transfer_id: self.sendings[i].transfer_id.clone(),
                    base: self.sendings[i].base.clone(),
                    token: Some(token.to_owned()),
                };
                self.sendings[i] = next;
                proof {
                    let v = self@.sendings;
                    assert(v =~= all.update(i as int, next.deep_view()));
                    assert forall|a: int, b: int| 0 <= a < b < v.len() implies (
                    #[trigger] v[a]).transfer_id != (#[trigger] v[b]).transfer_id by {
                        assert(all[a].transfer_id != all[b].transfer_id);
                    }
                }
            },
            None => {},
        }
    }

    /// A device that was asked who it is has answered. `target` is where it
    /// was asked.
    pub fn on_probe(
        &mut self,
        target: &Target,
        answer: Result<DeviceInfo, String>,
        now: i64,
    ) -> (r: Vec<CoreEvent>)
        requires
            old(self).wf(),
        ensures
            final(self).wf(),
            match answer {
                Ok(info) => {
                    &&& final(self)@ == (EngineView {
                        server: server::with_peer(
                            old(self)@.server,
                            info.deep_view(),
                            target.addr.deep_view(),
                            now,
                        ),
                        ..old(self)@
                    })
                    &&& r.deep_view() == probe_events(
                        old(self)@.server,
                        info.deep_view(),
                        target.addr.deep_view(),
                        now,
                    )
                },
                Err(e) => {
                    &&& final(self)@ == old(self)@
                    &&& r.deep_view() == seq![
                        add_error(target_text(target.deep_view()) + ": "@ + e@),
                    ]
                },
            },
    {
        let mut out: Vec<CoreEvent> = Vec::new();
        match answer {
            Ok(info) => {
                let up = note_peer(&mut self.server.registry, info, target.addr.clone(), now);
                let addr = target.addr.text();
                out.push(CoreEvent::Info(cat("已连接 ", addr.as_str())));
                match up {
                    Some(e) => {
                        let ghost before = out.deep_view();
                        out.push(e);
                        assert(out.deep_view() =~= before.push(e.deep_view()));
                    },
                    None => {},
                }
                assert(out.deep_view() =~= probe_events(
                    old(self)@.server,
                    info.deep_view(),
                    target.addr.deep_view(),
                    now,
                ));
            },
            Err(e) => {
                let t = target.text();
                let m = cat3(t.as_str(), ": ", e.as_str());
                out.push(make_error("添加设备", m));
                assert(out.deep_view() =~= seq![
                    add_error(target_text(target.deep_view()) + ": "@ + e@),
                ]);
            },
        }
        out
    }

    /// Ends everything: which transfers that go out and which that come in
    /// are called off.
    pub fn shut_down(&mut self) -> (r: (Vec<String>, Vec<String>))
        requires
            old(self).wf(),
        ensures
            final(self).wf(),
            final(self)@ == (EngineView {
                server: ServerView { sessions: Seq::empty(), ..old(self)@.server },
                sendings: Seq::empty(),
            }),
            r.0.deep_view() == Seq::new(
                old(self)@.sendings.len(),
                |i: int| old(self)@.sendings[i].transfer_id,
            ),
            r.1.deep_view() == Seq::new(
                old(self)@.server.sessions.len(),
                |i: int| old(self)@.server.sessions[i].token,
            ),
    {
        let ghost all = self@.sendings;
        let ghost ids = Seq::new(all.len(), |i: int| all[i].transfer_id);
        let mut out: Vec<String> = Vec::new();
        let mut i: usize = 0;
        while i < self.sendings.len()
            invariant
                all == self@.sendings,
                *self == *old(self),
                ids == Seq::new(all.len(), |i: int| all[i].transfer_id),
                i <= self.sendings@.len(),
                out.deep_view() =~= ids.take(i as int),
            decreases self.sendings@.len() - i,
        {
            assert(all[i as int] == self.sendings@[i as int].deep_view());
            let ghost before = out.deep_view();
            out.push(self.sendings[i].transfer_id.clone());
            assert(out.deep_view() =~= before.push(ids[i as int]));
            i = i + 1;
        }
        assert(out.deep_view() =~= ids);
        self.sendings = Vec::new();
        assert(self@.sendings =~= Seq::<SendRegView>::empty());
        let tokens = self.server.cancel_all();
        (out, tokens)
    }
}

/// What the user is told of a device that answered.
pub open spec fn probe_events(
    v: ServerView,
    info: DeviceInfoView,
    addr: AddrView,
    now: i64,
) -> Seq<CoreEventView> {
    let told = CoreEventView::Info("已连接 "@ + proto::addr_text(addr));
    match discovery::up_event(v.devices, info, addr, now) {
        Some(up) => seq![told, up],
        None => seq![told],
    }
}

/// What the user is told when there is nothing to send.
pub fn send_refused(transfer_id: &str, e: &CollectError) -> (r: (CoreEvent, CoreEvent))
    ensures
        r.0.deep_view() == (CoreEventView::Error {
            context: "发送文件"@,
            message: client::collect_full_message(e.deep_view()),
        }),
        r.1.deep_view() == server::ended(
            transfer_id@,
            Some(client::collect_message(e.deep_view())),
        ),
{
    let full = e.full_message();
    let short = e.message();
    (
        make_error("发送文件", full),
        CoreEvent::TransferFinished { transfer_id: transfer_id.to_owned(), error: Some(short) },
    )
}

/// What the user is told when there is nothing to publish.
pub fn offer_refused(e: &CollectError) -> (r: CoreEvent)
    ensures
        r.deep_view() == (CoreEventView::Error {
            context: "发送到网页"@,
            message: client::collect_full_message(e.deep_view()),
        }),
{
    let full = e.full_message();
    make_error("发送到网页", full)
}

/// How this device announces itself.
pub fn identity(config: &Config, os: &str) -> (r: DeviceInfo)
    ensures
        r.deep_view() == (DeviceInfoView {
            id: config.device_id@,
            name: config.device_name@,
            plat: net::platform_name(os@),
            port: config.http_port,
            v: PROTOCOL_VERSION,
        }),
{
    DeviceInfo {
        id: config.device_id.clone(),
        name: config.device_name.clone(),
        plat: platform(os).to_owned(),
        port: config.http_port,
        v: PROTOCOL_VERSION,
    }
}

// ---------------------------------------------------------------------------
// Laws of commands
// ---------------------------------------------------------------------------

/// Nobody but an online device is ever sent anything.
pub proof fn law_only_online_peers_are_sent_to(
    v: EngineView,
    cmd: UiCommandView,
    fresh: Seq<char>,
    now: i64,
)
    ensures
        outcome(v, cmd, fresh, now).2 is SendText || outcome(v, cmd, fresh, now).2 is SendFiles ==> (
        (cmd is SendText && online_peer(v.server, cmd->SendText_peer_id) is Some) || (
        cmd is SendFiles && online_peer(v.server, cmd->SendFiles_peer_id) is Some)),
{
}

/// A transfer that was cancelled is gone: cancelling it again does nothing.
pub proof fn law_cancel_is_final(v: EngineView, id: Seq<char>, fresh: Seq<char>, now: i64)
    requires
        regs_unique(v.sendings),
        server::tokens_unique(v.server.sessions),
        find_reg(v.sendings, id) is None || server::find_session(v.server.sessions, id) is None,
    ensures
        ({
            let cmd = UiCommandView::CancelTransfer { transfer_id: id };
            let after = outcome(v, cmd, fresh, now).0;
            outcome(after, cmd, fresh, now) == (after, None::<CoreEventView>, ActionView::Nothing)
        }),
{
    lemma_without_reg(v.sendings, id);
    server::law_removed_session_is_gone(v.server.sessions, id);
}

/// Every way out carries the new name once the device was renamed, and
/// nothing else of its identity changes.
pub proof fn law_rename_changes_only_the_name(
    v: EngineView,
    name: Seq<char>,
    fresh: Seq<char>,
    now: i64,
)
    requires
        text::trimmed(name).len() > 0,
    ensures
        ({
            let after = outcome(v, UiCommandView::Rename { name }, fresh, now).0;
            &&& after.server.me == (DeviceInfoView { name: text::trimmed(name), ..v.server.me })
            &&& after.server.devices == v.server.devices
            &&& after.server.sessions == v.server.sessions
            &&& after.sendings == v.sendings
        }),
{
}

/// A device is sent to exactly where it is known and online, and by what is
/// known of it.
proof fn lemma_online_peer(v: ServerView, id: Seq<char>)
    requires
        discovery::ids_unique(v.devices),
    ensures
        online_peer(v, id) is Some <==> exists|i: int|
            0 <= i < v.devices.len() && (#[trigger] v.devices[i]).info.id == id
                && v.devices[i].online,
        online_peer(v, id) is Some ==> v.devices.contains(online_peer(v, id)->Some_0)
            && online_peer(v, id)->Some_0.info.id == id && online_peer(v, id)->Some_0.online,
{
    let s = v.devices;
    if discovery::has_id(s, id) {
        let p = discovery::place_of(s, id);
        assert(discovery::is_at(s, id, p));
        assert(s.contains(s[p]));
        if exists|i: int| 0 <= i < s.len() && (#[trigger] s[i]).info.id == id && s[i].online {
            let i = choose|i: int|
                0 <= i < s.len() && (#[trigger] s[i]).info.id == id && s[i].online;
            if p < i {
                assert(s[p].info.id != s[i].info.id);
            } else if i < p {
                assert(s[i].info.id != s[p].info.id);
            }
        }
    } else {
        assert forall|i: int| 0 <= i < s.len() implies (#[trigger] s[i]).info.id != id by {
            if s[i].info.id == id {
                assert(discovery::is_at(s, id, i));
            }
        }
    }
}

/// A text for a device that is online is stored in the conversation with that
/// device, as sent by this one, and goes to the address of that device in
/// the name of this one; a text for anybody else goes nowhere, and the user is
/// told.
pub proof fn law_text_goes_to_its_peer(
    v: EngineView,
    peer: Seq<char>,
    said: Seq<char>,
    fresh: Seq<char>,
    now: i64,
)
    requires
        discovery::ids_unique(v.server.devices),
    ensures
        ({
            let o = outcome(
                v,
                UiCommandView::SendText { peer_id: peer, text: said },
                fresh,
                now,
            );
            let there = exists|i: int|
                0 <= i < v.server.devices.len() && (#[trigger] v.server.devices[i]).info.id == peer
                    && v.server.devices[i].online;
            &&& o.0 == v
            &&& there ==> {
                &&& o.1 is None
                &&& o.2 is SendText
                &&& o.2->SendText_msg.peer_id == peer
                &&& o.2->SendText_msg.outgoing
                &&& o.2->SendText_msg.kind == proto::MessageKindView::Text(said)
                &&& o.2->SendText_msg.created_at == now
                &&& o.2->sender == v.server.me
                &&& exists|i: int|
                    0 <= i < v.server.devices.len() && (#[trigger] v.server.devices[i]).info.id
                        == peer && v.server.devices[i].online && o.2->SendText_base
                        == proto::base_url(
                        v.server.devices[i].addr,
                        v.server.devices[i].info.port,
                    )
            }
            &&& !there ==> o.2 is Nothing && o.1 is Some && o.1->Some_0 is Error
        }),
{
    lemma_online_peer(v.server, peer);
}

/// Files for a device that is online go to the address of that device, all the
/// paths that were chosen, under the id of the new transfer, which can be
/// called off from then on; the transfers that were under way go on. Files
/// for anybody else go nowhere, and the user is told.
pub proof fn law_files_go_to_their_peer(
    v: EngineView,
    peer: Seq<char>,
    chosen: Seq<Seq<char>>,
    fresh: Seq<char>,
    now: i64,
)
    requires
        discovery::ids_unique(v.server.devices),
        regs_unique(v.sendings),
    ensures
        ({
            let o = outcome(
                v,
                UiCommandView::SendFiles { peer_id: peer, paths: chosen },
                fresh,
                now,
            );
            let there = exists|i: int|
                0 <= i < v.server.devices.len() && (#[trigger] v.server.devices[i]).info.id == peer
                    && v.server.devices[i].online;
            &&& o.0.server == v.server
            &&& there ==> {
                &&& o.1 is None
                &&& o.2 is SendFiles
                &&& o.2->SendFiles_transfer_id == fresh
                &&& o.2->peer_id == peer
                &&& o.2->SendFiles_paths == chosen
                &&& exists|i: int|
                    0 <= i < v.server.devices.len() && (#[trigger] v.server.devices[i]).info.id
                        == peer && v.server.devices[i].online && o.2->peer_name
                        == v.server.devices[i].info.name && o.2->SendFiles_base == proto::base_url(
                        v.server.devices[i].addr,
                        v.server.devices[i].info.port,
                    )
                &&& find_reg(o.0.sendings, fresh) is Some
                &&& o.0.sendings[find_reg(o.0.sendings, fresh)->Some_0].base == o.2->SendFiles_base
                &&& o.0.sendings[find_reg(o.0.sendings, fresh)->Some_0].token is None
                &&& forall|i: int|
                    0 <= i < v.sendings.len() && (#[trigger] v.sendings[i]).transfer_id != fresh
                        ==> o.0.sendings.contains(v.sendings[i])
            }
            &&& !there ==> o.0 == v && o.2 is Nothing && o.1 is Some && o.1->Some_0 is Error
        }),
{
    lemma_online_peer(v.server, peer);
    lemma_without_reg(v.sendings, fresh);
    if online_peer(v.server, peer) is Some {
        let o = outcome(v, UiCommandView::SendFiles { peer_id: peer, paths: chosen }, fresh, now);
        let rest = without_reg(v.sendings, fresh);
        let after = o.0.sendings;
        assert forall|a: int, b: int| 0 <= a < b < after.len() implies (
        #[trigger] after[a]).transfer_id != (#[trigger] after[b]).transfer_id by {
            if b == rest.len() && after[a].transfer_id == fresh {
                assert(reg_at(rest, fresh, a));
            }
        }
        assert(reg_at(after, fresh, rest.len() as int));
        lemma_reg_at(after, fresh, rest.len() as int);
        assert forall|i: int|
            0 <= i < v.sendings.len() && (#[trigger] v.sendings[i]).transfer_id
                != fresh implies after.contains(v.sendings[i]) by {
            let k = choose|k: int| 0 <= k < rest.len() && rest[k] == v.sendings[i];
            assert(after[k] == v.sendings[i]);
        }
    }
}

/// What the user decided on a request is handed on as it was decided, once:
/// the request waits no more, and the others wait on.
pub proof fn law_decision_is_handed_on(
    v: EngineView,
    req_id: Seq<char>,
    accept: bool,
    save_dir: Option<Seq<char>>,
    overwrite: bool,
    fresh: Seq<char>,
    now: i64,
)
    requires
        server::requests_unique(v.server.pending),
    ensures
        ({
            let cmd = UiCommandView::RespondRequest { req_id, accept, save_dir, overwrite };
            let o = outcome(v, cmd, fresh, now);
            let waits = exists|i: int|
                0 <= i < v.server.pending.len() && (#[trigger] v.server.pending[i]).req_id
                    == req_id;
            &&& waits ==> {
                &&& o.2 is Decide
                &&& o.2->req_id == req_id
                &&& o.2->decision.accept == accept
                &&& o.2->decision.save_dir == save_dir
                &&& o.2->decision.overwrite == overwrite
            }
            &&& !waits ==> o.2 is Nothing && o.0 == v
            &&& o.1 is None
            &&& outcome(o.0, cmd, fresh, now).2 is Nothing
            &&& forall|i: int|
                0 <= i < v.server.pending.len() && (#[trigger] v.server.pending[i]).req_id != req_id
                    ==> o.0.server.pending.contains(v.server.pending[i])
            &&& o.0.server.sessions == v.server.sessions
            &&& o.0.sendings == v.sendings
        }),
{
    server::law_removed_request_is_gone(v.server.pending, req_id);
    let s = v.server.pending;
    if exists|i: int| 0 <= i < s.len() && (#[trigger] s[i]).req_id == req_id {
        let i = choose|i: int| 0 <= i < s.len() && (#[trigger] s[i]).req_id == req_id;
        assert(server::request_at(s, req_id, i));
    } else {
        assert forall|i: int| !server::request_at(s, req_id, i) by {}
    }
}

/// A transfer that goes out and is called off: the receiver is told where it
/// had agreed, at its own address and by its own token; no other transfer is
/// touched.
pub proof fn law_cancelled_sending_is_told(
    v: EngineView,
    id: Seq<char>,
    fresh: Seq<char>,
    now: i64,
    i: int,
)
    requires
        regs_unique(v.sendings),
        0 <= i < v.sendings.len(),
        v.sendings[i].transfer_id == id,
    ensures
        ({
            let o = outcome(v, UiCommandView::CancelTransfer { transfer_id: id }, fresh, now);
            &&& o.0.server == v.server
            &&& o.1 is None
            &&& o.2 is CancelSend
            &&& o.2->CancelSend_transfer_id == id
            &&& o.2->notify is Some <==> v.sendings[i].token is Some
            &&& v.sendings[i].token is Some ==> o.2->notify == Some(
                v.sendings[i].base + "/api/transfer/cancel/"@ + v.sendings[i].token->Some_0,
            )
            &&& find_reg(o.0.sendings, id) is None
            &&& forall|k: int|
                0 <= k < v.sendings.len() && k != i ==> o.0.sendings.contains(
                    #[trigger] v.sendings[k],
                )
        }),
{
    assert(reg_at(v.sendings, id, i));
    lemma_reg_at(v.sendings, id, i);
    lemma_without_reg(v.sendings, id);
    let r = without_reg(v.sendings, id);
    assert forall|k: int| 0 <= k < v.sendings.len() && k != i implies r.contains(
        #[trigger] v.sendings[k],
    ) by {
        if k < i {
            assert(v.sendings[k].transfer_id != v.sendings[i].transfer_id);
        } else {
            assert(v.sendings[i].transfer_id != v.sendings[k].transfer_id);
        }
    }
}

/// A transfer that comes in and is called off: it is over, the user is told,
/// and what comes in is stopped; no other transfer is touched.
pub proof fn law_cancelled_receiving_ends(
    v: EngineView,
    id: Seq<char>,
    fresh: Seq<char>,
    now: i64,
)
    requires
        server::tokens_unique(v.server.sessions),
        forall|i: int| 0 <= i < v.sendings.len() ==> (#[trigger] v.sendings[i]).transfer_id != id,
        exists|i: int|
            0 <= i < v.server.sessions.len() && (#[trigger] v.server.sessions[i]).token == id,
    ensures
        ({
            let o = outcome(v, UiCommandView::CancelTransfer { transfer_id: id }, fresh, now);
            &&& o.0.sendings == v.sendings
            &&& o.1 == Some(
                CoreEventView::TransferFinished { transfer_id: id, error: Some("已取消"@) },
            )
            &&& o.2 == (ActionView::CancelReceive { token: id })
            &&& server::find_session(o.0.server.sessions, id) is None
            &&& forall|k: int|
                0 <= k < v.server.sessions.len() && (#[trigger] v.server.sessions[k]).token != id
                    ==> o.0.server.sessions.contains(v.server.sessions[k])
            &&& o.0.server.pending == v.server.pending
            &&& o.0.server.devices == v.server.devices
        }),
{
    server::law_removed_session_is_gone(v.server.sessions, id);
    let i = choose|i: int|
        0 <= i < v.server.sessions.len() && (#[trigger] v.server.sessions[i]).token == id;
    assert(server::session_at(v.server.sessions, id, i));
    assert forall|k: int| !reg_at(v.sendings, id, k) by {
        if reg_at(v.sendings, id, k) {
            assert(v.sendings[k].transfer_id == id);
        }
    }
}

/// Once the receiver of a transfer has agreed, calling the transfer off tells
/// it, by the token that it gave; no other transfer gets the token.
pub proof fn law_agreed_transfer_can_be_called_off(
    v: EngineView,
    id: Seq<char>,
    token: Seq<char>,
    fresh: Seq<char>,
    now: i64,
    i: int,
)
    requires
        regs_unique(v.sendings),
        0 <= i < v.sendings.len(),
        v.sendings[i].transfer_id == id,
    ensures
        ({
            let agreed = EngineView { sendings: with_token(v.sendings, id, token), ..v };
            let o = outcome(agreed, UiCommandView::CancelTransfer { transfer_id: id }, fresh, now);
            &&& o.2 is CancelSend
            &&& o.2->notify == Some(v.sendings[i].base + "/api/transfer/cancel/"@ + token)
            &&& agreed.sendings.len() == v.sendings.len()
            &&& forall|k: int|
                0 <= k < v.sendings.len() && k != i ==> #[trigger] agreed.sendings[k]
                    == v.sendings[k]
        }),
{
    assert(reg_at(v.sendings, id, i));
    lemma_reg_at(v.sendings, id, i);
    let agreed = EngineView { sendings: with_token(v.sendings, id, token), ..v };
    let s = agreed.sendings;
    assert forall|a: int, b: int| 0 <= a < b < s.len() implies (#[trigger] s[a]).transfer_id != (
    #[trigger] s[b]).transfer_id by {
        assert(v.sendings[a].transfer_id != v.sendings[b].transfer_id);
    }
    law_cancelled_sending_is_told(agreed, id, fresh, now, i);
}

/// A text for browsers is stored without its outer white space in the
/// conversation with the browsers, as sent by this device; one that says
/// nothing is not.
pub proof fn law_text_for_browsers_is_stored(
    v: EngineView,
    said: Seq<char>,
    fresh: Seq<char>,
    now: i64,
)
    ensures
        ({
            let o = outcome(v, UiCommandView::WebText { text: said }, fresh, now);
            &&& o.0 == v
            &&& o.1 is None
            &&& text::trimmed(said).len() == 0 ==> o.2 is Nothing
            &&& text::trimmed(said).len() > 0 ==> {
                &&& o.2 is StoreMessage
                &&& o.2->StoreMessage_msg.peer_id == "__web__"@
                &&& o.2->StoreMessage_msg.outgoing
                &&& o.2->StoreMessage_msg.kind == proto::MessageKindView::Text(text::trimmed(said))
                &&& o.2->StoreMessage_msg.created_at == now
            }
        }),
{
}

/// Files for browsers are published as they were chosen, an address that the
/// user typed is asked, and a shutdown stops; none of them changes what is
/// known.
pub proof fn law_plain_commands_change_nothing(
    v: EngineView,
    chosen: Seq<Seq<char>>,
    host: Seq<char>,
    fresh: Seq<char>,
    now: i64,
)
    ensures
        outcome(v, UiCommandView::WebOffer { paths: chosen }, fresh, now) == (
            v,
            None::<CoreEventView>,
            ActionView::OfferFiles { paths: chosen },
        ),
        outcome(v, UiCommandView::ConnectPeer { host }, fresh, now).0 == v,
        outcome(v, UiCommandView::ConnectPeer { host }, fresh, now).2 == (ActionView::Connect {
            host: host_text(host),
        }),
        outcome(v, UiCommandView::Shutdown, fresh, now) == (
            v,
            None::<CoreEventView>,
            ActionView::Stop,
        ),
        text::trimmed(host).len() < 7 ==> host_text(host) == text::trimmed(host),
{
}

/// A host may be typed with or without the scheme of a web address.
pub proof fn law_scheme_does_not_matter(host: Seq<char>)
    ensures
        without_scheme("http://"@ + host) == without_scheme(host),
        without_scheme(host).len() >= 7 ==> without_scheme(host).take(7) != "http://"@,
        without_scheme(host).len() <= host.len(),
        without_scheme(host) == host.skip(host.len() - without_scheme(host).len()),
    decreases host.len(),
{
    reveal_strlit("http://");
    let s = "http://"@ + host;
    assert(s.take(7) =~= "http://"@);
    assert(s.skip(7) =~= host);
    if host.len() >= 7 && host.take(7) == "http://"@ {
        let t = host.skip(7);
        law_scheme_does_not_matter(t);
        let n = without_scheme(t).len();
        assert(t.skip(t.len() - n) =~= host.skip(host.len() - n));
    } else {
        assert(host.skip(0) =~= host);
    }
}

/// An address that the user typed is asked as it was typed, at the port that
/// was typed, or at the usual one where none was.
pub proof fn law_typed_address_is_asked(
    a: u8,
    b: u8,
    c: u8,
    d: u8,
    port: u16,
    v6: Option<(Seq<char>, u16)>,
)
    ensures
        target_of(target_text(TargetView { addr: AddrView::V4(a, b, c, d), port }), v6) == Ok::<
            _,
            Seq<char>,
        >(TargetView { addr: AddrView::V4(a, b, c, d), port }),
        target_of(proto::addr_text(AddrView::V4(a, b, c, d)), v6) == Ok::<_, Seq<char>>(
            TargetView { addr: AddrView::V4(a, b, c, d), port: 17878 },
        ),
{
    reveal_strlit(".");
    reveal_strlit(":");
    law_address_reads_back(a, b, c, d, port);
    law_address_reads_back(a, b, c, d, 17878);
    let addr = AddrView::V4(a, b, c, d);
    let ip = proto::addr_text(addr);
    let s = target_text(TargetView { addr, port });
    assert(s[ip.len() as int] == ':');
    assert(text::has_char(s, ':'));
    lemma_octet_text(a as nat);
    lemma_octet_text(b as nat);
    lemma_octet_text(c as nat);
    lemma_octet_text(d as nat);
    let ta = text::decimal(a as nat);
    let tb = text::decimal(b as nat);
    let tc = text::decimal(c as nat);
    let td = text::decimal(d as nat);
    assert(!text::has_char(ip, ':')) by {
        assert forall|i: int| 0 <= i < ip.len() implies ip[i] != ':' by {
            if i < ta.len() {
                assert(ip[i] == ta[i]);
            } else if i == ta.len() {
            } else if i < ta.len() + 1 + tb.len() {
                assert(ip[i] == tb[i - ta.len() - 1]);
            } else if i == ta.len() + 1 + tb.len() {
            } else if i < ta.len() + tb.len() + tc.len() + 2 {
                assert(ip[i] == tc[i - ta.len() - tb.len() - 2]);
            } else if i == ta.len() + tb.len() + tc.len() + 2 {
            } else {
                assert(ip[i] == td[i - ta.len() - tb.len() - tc.len() - 3]);
            }
        }
    }
}

/// The user is told of a device that answered: always that it did, and that
/// it is there where that is news.
pub proof fn law_answer_is_told(v: ServerView, info: DeviceInfoView, addr: AddrView, now: i64)
    ensures
        probe_events(v, info, addr, now).len() == (if discovery::is_news(v.devices, info) {
            2nat
        } else {
            1nat
        }),
        probe_events(v, info, addr, now)[0] is Info,
        discovery::is_news(v.devices, info) ==> probe_events(v, info, addr, now)[1]
            == CoreEventView::DeviceUp(
            DeviceView { info, addr, online: true, last_seen_ms: now },
        ),
{
}

/// A number is read back from its digits, up to the limit and no further.
pub proof fn law_number_reads_back(n: nat, limit: nat)
    ensures
        n <= limit ==> number_upto(text::decimal(n), limit) == Some(n),
        n > limit ==> number_upto(text::decimal(n), limit) is None,
        forall|i: int|
            0 <= i < text::decimal(n).len() ==> text::is_digit(#[trigger] text::decimal(n)[i]),
        text::decimal(n).len() > 0,
{
    lemma_decimal_number(n);
}

/// Two numbers are written alike only where they are the same.
pub proof fn law_numbers_are_told_apart(a: nat, b: nat)
    requires
        text::decimal(a) == text::decimal(b),
    ensures
        a == b,
{
    lemma_decimal_number(a);
    lemma_decimal_number(b);
}

/// The address that a device is sent to leads to its address and its port.
pub proof fn law_base_leads_to_the_device(a: u8, b: u8, c: u8, d: u8, port: u16)
    ensures
        ({
            let base = proto::base_url(AddrView::V4(a, b, c, d), port);
            &&& base.len() > 7
            &&& base.take(7) == "http://"@
            &&& socket_of(base.skip(7)) == Some(((a, b, c, d), port))
        }),
{
    reveal_strlit("http://");
    let base = proto::base_url(AddrView::V4(a, b, c, d), port);
    let t = target_text(TargetView { addr: AddrView::V4(a, b, c, d), port });
    law_address_reads_back(a, b, c, d, port);
    assert(base.take(7) =~= "http://"@);
    assert(base.skip(7) =~= t);
    lemma_decimal_number(port as nat);
}

} // verus!
