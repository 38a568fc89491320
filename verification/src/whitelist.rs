//! The addresses that may connect: single addresses and CIDR blocks, one per
//! line of a text file.
use crate::error::bad_input;
use crate::error::Error;
use crate::error::ErrorKind;
use crate::error::Failure;
use crate::net::ip_text;
use crate::net::IpAddr;
use crate::net::law_mapped_range;
use crate::net::law_other_peers_stay;
use crate::net::mapped;
use crate::net::normalize_peer_ip;
use crate::net::parse_ip;
use crate::net::peer_ip;
use crate::prefix::block_size;
use crate::prefix::block_start;
use crate::prefix::in_block;
use crate::prefix::ipv4_network_of;
use crate::prefix::law_ipv4_block_by_bits;
use crate::prefix::law_ipv6_block_by_bits;
use crate::prefix::lemma_same_block;
use crate::prefix::lemma_same_quotient;
use crate::prefix::network_of;
use crate::text::blank;
use crate::text::chars_of;
use crate::text::decimal;
use crate::text::digits_value;
use crate::text::is_white_space;
use crate::text::law_comment_does_not_matter;
use crate::text::law_line_text;
use crate::text::law_split_once;
use crate::text::law_trim;
use crate::text::line_chars;
use crate::text::line_text;
use crate::text::lines;
use crate::text::lines_of;
use crate::text::parse_u8;
use crate::text::push_chars;
use crate::text::push_decimal;
use crate::text::split_once;
use crate::text::split_once_chars;
use crate::text::string_of;
use crate::text::tight;
use crate::text::trim;
use crate::text::trim_chars;
use crate::text::u8_text;
use crate::text::views;
use vstd::arithmetic::power2::lemma2_to64;
use vstd::arithmetic::power2::lemma2_to64_rest;
use vstd::arithmetic::power2::lemma_pow2_adds;
use vstd::arithmetic::power2::lemma_pow2_pos;
use vstd::arithmetic::power2::pow2;
use vstd::prelude::*;

verus! {

/// An entry of a whitelist: the first address of a block and its prefix length.
#[derive(Clone, Copy, Debug, PartialEq, Eq, Structural)]
pub enum Entry {
    V4(u32, u8),
    V6(u128, u8),
}

impl Entry {
    /// The prefix length is in range and the address starts its block.
    pub open spec fn wf(self) -> bool {
        match self {
            Entry::V4(net, len) => len <= 32 && net == block_start(
                net as int,
                block_size(32, len as nat),
            ),
            Entry::V6(net, len) => len <= 128 && net == block_start(
                net as int,
                block_size(128, len as nat),
            ),
        }
    }

    /// Whether the block holds `ip`.
    pub open spec fn holds(self, ip: IpAddr) -> bool {
        match (self, ip) {
            (Entry::V4(net, len), IpAddr::V4(n)) => in_block(
                n as int,
                net as int,
                block_size(32, len as nat),
            ),
            (Entry::V6(net, len), IpAddr::V6(n)) => in_block(
                n as int,
                net as int,
                block_size(128, len as nat),
            ),
            _ => false,
        }
    }
}

/// The mathematical view of [`IpWhitelist`]: the blocks of each family, in order.
#[verifier::ext_equal]
pub struct WhitelistView {
    pub v4: Seq<(u32, u8)>,
    pub v6: Seq<(u128, u8)>,
}

impl WhitelistView {
    pub open spec fn empty() -> WhitelistView {
        WhitelistView { v4: Seq::empty(), v6: Seq::empty() }
    }

    /// These entries and one more behind them.
    pub open spec fn with(self, entry: Entry) -> WhitelistView {
        match entry {
            Entry::V4(net, len) => WhitelistView { v4: self.v4.push((net, len)), ..self },
            Entry::V6(net, len) => WhitelistView { v6: self.v6.push((net, len)), ..self },
        }
    }

    /// How many entries there are.
    pub open spec fn count(self) -> nat {
        self.v4.len() + self.v6.len()
    }

    /// Every entry has a prefix length in range and starts its block.
    pub open spec fn wf(self) -> bool {
        wf_v4(self.v4) && wf_v6(self.v6)
    }

    /// Whether a block holds `ip`.
    pub open spec fn holds(self, ip: IpAddr) -> bool {
        ||| exists|i: int|
            0 <= i < self.v4.len() && Entry::V4((#[trigger] self.v4[i]).0, self.v4[i].1).holds(ip)
        ||| exists|i: int|
            0 <= i < self.v6.len() && Entry::V6((#[trigger] self.v6[i]).0, self.v6[i].1).holds(ip)
    }

    /// Whether the peer `ip` may connect. An IPv4 peer is the same peer where it
    /// comes as an IPv4-mapped IPv6 address.
    pub open spec fn admits(self, ip: IpAddr) -> bool {
        self.holds(peer_ip(ip))
    }
}

/// The entries of a whitelist file.
#[derive(Debug)]
pub struct IpWhitelist {
    v4: Vec<(u32, u8)>,
    v6: Vec<(u128, u8)>,
}

impl View for IpWhitelist {
    type V = WhitelistView;

    closed spec fn view(&self) -> WhitelistView {
        WhitelistView { v4: self.v4@, v6: self.v6@ }
    }
}

/// Every IPv4 entry is well-formed.
pub open spec fn wf_v4(v4: Seq<(u32, u8)>) -> bool {
    forall|i: int| 0 <= i < v4.len() ==> Entry::V4((#[trigger] v4[i]).0, v4[i].1).wf()
}

/// Every IPv6 entry is well-formed.
pub open spec fn wf_v6(v6: Seq<(u128, u8)>) -> bool {
    forall|i: int| 0 <= i < v6.len() ==> Entry::V6((#[trigger] v6[i]).0, v6[i].1).wf()
}

impl Default for IpWhitelist {
    fn default() -> (list: Self)
        ensures
            list@ == WhitelistView::empty(),
            list@.wf(),
    {
        IpWhitelist { v4: Vec::new(), v6: Vec::new() }
    }
}

// --- The file ---

/// The length that a prefix part denotes; where there is none, the whole address.
pub open spec fn len_from_part(len: Option<Seq<char>>, bits: u8) -> Option<u8> {
    match len {
        Some(text) => u8_text(text),
        None => Some(bits),
    }
}

/// The entry in line `number`, whose text is `text`, once its address part was
/// read as `ip` and its prefix part, if it has one, is `len`.
pub open spec fn entry_from_parts(
    ip: Option<IpAddr>,
    len: Option<Seq<char>>,
    text: Seq<char>,
    number: nat,
) -> Result<Entry, Failure> {
    let bad_prefix = bad_input(
        "invalid prefix at whitelist line "@ + decimal(number) + ": "@ + text,
    );
    match ip {
        None => Err(bad_input("invalid IP at whitelist line "@ + decimal(number) + ": "@ + text)),
        Some(IpAddr::V4(n)) => match len_from_part(len, 32) {
            None => Err(bad_prefix),
            Some(len) => if len > 32 {
                Err(
                    bad_input(
                        "v4 prefix length must be 0..=32 at whitelist line "@ + decimal(number),
                    ),
                )
            } else {
                Ok(Entry::V4(block_start(n as int, block_size(32, len as nat)) as u32, len))
            },
        },
        Some(IpAddr::V6(n)) => match len_from_part(len, 128) {
            None => Err(bad_prefix),
            Some(len) => if len > 128 {
                Err(
                    bad_input(
                        "v6 prefix length must be 0..=128 at whitelist line "@ + decimal(number),
                    ),
                )
            } else {
                Ok(Entry::V6(block_start(n as int, block_size(128, len as nat)) as u128, len))
            },
        },
    }
}

/// The entry in line `number`, if there is one in it.
pub open spec fn entry_of_line(line: Seq<char>, number: nat) -> Result<Option<Entry>, Failure> {
    let text = line_text(line);
    let entry = match split_once(text, '/') {
        Some((addr, len)) => entry_from_parts(
            ip_text(trim(addr)),
            Some(trim(len)),
            text,
            number,
        ),
        None => entry_from_parts(ip_text(text), None, text, number),
    };
    if text.len() == 0 {
        Ok(None)
    } else {
        match entry {
            Ok(entry) => Ok(Some(entry)),
            Err(f) => Err(f),
        }
    }
}

/// The entries in some lines, or what is wrong with the first line that is wrong.
pub open spec fn entries_of_lines(lines: Seq<Seq<char>>) -> Result<WhitelistView, Failure>
    decreases lines.len(),
{
    if lines.len() == 0 {
        Ok(WhitelistView::empty())
    } else {
        match entries_of_lines(lines.drop_last()) {
            Err(f) => Err(f),
            Ok(list) => match entry_of_line(lines.last(), lines.len()) {
                Err(f) => Err(f),
                Ok(None) => Ok(list),
                Ok(Some(entry)) => Ok(list.with(entry)),
            },
        }
    }
}

/// The entries in the file with the text `content`.
pub open spec fn whitelist_text(content: Seq<char>) -> Result<WhitelistView, Failure> {
    entries_of_lines(lines(content))
}

/// What is wrong with the first lines is wrong with all of them.
proof fn lemma_error_stays(lines: Seq<Seq<char>>, n: int)
    requires
        0 <= n <= lines.len(),
        entries_of_lines(lines.take(n)) is Err,
    ensures
        entries_of_lines(lines) == entries_of_lines(lines.take(n)),
    decreases lines.len(),
{
    if n == lines.len() {
        assert(lines.take(n) == lines);
    } else {
        assert(lines.drop_last().take(n) == lines.take(n));
        lemma_error_stays(lines.drop_last(), n);
    }
}

/// The error `what`, the line's number, a colon and its text.
fn line_error(what: &str, number: usize, text: &[char]) -> (e: Error)
    ensures
        e@ == bad_input(what@ + decimal(number as nat) + ": "@ + text@),
{
    let mut message = what.to_string();
    push_decimal(&mut message, number);
    message.append(": ");
    push_chars(&mut message, text);
    Error { kind: ErrorKind::InvalidInput, message }
}

/// The error `what` and the line's number.
fn range_error(what: &str, number: usize) -> (e: Error)
    ensures
        e@ == bad_input(what@ + decimal(number as nat)),
{
    let mut message = what.to_string();
    push_decimal(&mut message, number);
    Error { kind: ErrorKind::InvalidInput, message }
}

/// The text of an optional part.
pub open spec fn part_view(part: Option<&[char]>) -> Option<Seq<char>> {
    match part {
        Some(text) => Some(text@),
        None => None,
    }
}

fn read_len(part: Option<&[char]>, bits: u8) -> (len: Option<u8>)
    ensures
        len == len_from_part(part_view(part), bits),
{
    match part {
        Some(text) => parse_u8(text),
        None => Some(bits),
    }
}

/// The entry in line `number`, whose text is `text`, once its address part was
/// read as `ip` and its prefix part, if it has one, is `len`.
pub fn whitelist_entry(
    ip: Option<IpAddr>,
    len: Option<&[char]>,
    text: &[char],
    number: usize,
) -> (r: Result<Entry, Error>)
    ensures
        match r {
            Ok(entry) => entry_from_parts(ip, part_view(len), text@, number as nat) == Ok::<
                Entry,
                Failure,
            >(entry) && entry.wf(),
            Err(e) => entry_from_parts(ip, part_view(len), text@, number as nat) == Err::<
                Entry,
                Failure,
            >(e@),
        },
{
    match ip {
        None => Err(line_error("invalid IP at whitelist line ", number, text)),
        Some(IpAddr::V4(n)) => {
            let len = match read_len(len, 32) {
                Some(len) => len,
                None => return Err(line_error("invalid prefix at whitelist line ", number, text)),
            };
            if len > 32 {
                return Err(
                    range_error("v4 prefix length must be 0..=32 at whitelist line ", number),
                );
            }
            proof {
                lemma_pow2_pos((32 - len) as nat);
                lemma_same_block(n as int, n as int, block_size(32, len as nat));
            }
            Ok(Entry::V4(ipv4_network_of(n, len), len))
        },
        Some(IpAddr::V6(n)) => {
            let len = match read_len(len, 128) {
                Some(len) => len,
                None => return Err(line_error("invalid prefix at whitelist line ", number, text)),
            };
            if len > 128 {
                return Err(
                    range_error("v6 prefix length must be 0..=128 at whitelist line ", number),
                );
            }
            proof {
                lemma_pow2_pos((128 - len) as nat);
                lemma_same_block(n as int, n as int, block_size(128, len as nat));
            }
            Ok(Entry::V6(network_of(n, len), len))
        },
    }
}

fn read_line(line: &[char], number: usize) -> (r: Result<Option<Entry>, Error>)
    ensures
        match r {
            Ok(entry) => entry_of_line(line@, number as nat) == Ok::<Option<Entry>, Failure>(entry)
                && (entry matches Some(entry) ==> entry.wf()),
            Err(e) => entry_of_line(line@, number as nat) == Err::<Option<Entry>, Failure>(e@),
        },
{
    let text = line_chars(line);
    if text.len() == 0 {
        return Ok(None);
    }
    let (addr, len) = match split_once_chars(text, '/') {
        Some((addr, len)) => (trim_chars(addr), Some(trim_chars(len))),
        None => (text, None),
    };
    let addr = string_of(addr);
    match whitelist_entry(parse_ip(addr.as_str()), len, text, number) {
        Ok(entry) => Ok(Some(entry)),
        Err(e) => Err(e),
    }
}

impl IpWhitelist {
    #[verifier::type_invariant]
    spec fn inv(self) -> bool {
        self@.wf() && self.v4@.len() + self.v6@.len() <= usize::MAX
    }

    /// Reads the entries in the text of a whitelist file.
    pub fn parse(content: &str) -> (r: Result<Self, Error>)
        ensures
            match r {
                Ok(list) => whitelist_text(content@) == Ok::<WhitelistView, Failure>(list@)
                    && list@.wf(),
                Err(e) => whitelist_text(content@) == Err::<WhitelistView, Failure>(e@),
            },
    {
        let chars = chars_of(content);
        let all = lines_of(chars.as_slice());
        let ghost model = lines(content@);
        let mut v4: Vec<(u32, u8)> = Vec::new();
        let mut v6: Vec<(u128, u8)> = Vec::new();
        assert(model.take(0) == Seq::<Seq<char>>::empty());
        for i in 0..all.len()
            invariant
                views(all@) == model,
                entries_of_lines(model.take(i as int)) == Ok::<WhitelistView, Failure>(
                    WhitelistView { v4: v4@, v6: v6@ },
                ),
                wf_v4(v4@),
                wf_v6(v6@),
                v4@.len() + v6@.len() <= i,
                model == lines(content@),
        {
            assert(model[i as int] == all@[i as int]@);
            assert(model.take(i + 1).drop_last() == model.take(i as int));
            match read_line(all[i], i + 1) {
                Ok(Some(Entry::V4(net, len))) => v4.push((net, len)),
                Ok(Some(Entry::V6(net, len))) => v6.push((net, len)),
                Ok(None) => {},
                Err(e) => {
                    proof {
                        lemma_error_stays(model, i + 1);
                    }
                    return Err(e);
                },
            }
        }
        assert(model.take(all@.len() as int) == model);
        Ok(IpWhitelist { v4, v6 })
    }

    /// Whether the peer `ip` may connect.
    pub fn allows(&self, ip: IpAddr) -> (r: bool)
        ensures
            r == self@.admits(ip),
            self@.wf(),
    {
        proof {
            use_type_invariant(self);
        }
        match normalize_peer_ip(ip) {
            IpAddr::V4(n) => {
                for i in 0..self.v4.len()
                    invariant
                        self@.wf(),
                        peer_ip(ip) == IpAddr::V4(n),
                        forall|j: int|
                            0 <= j < i ==> !Entry::V4(
                                (#[trigger] self.v4@[j]).0,
                                self.v4@[j].1,
                            ).holds(peer_ip(ip)),
                {
                    let (net, len) = self.v4[i];
                    assert(Entry::V4(self.v4@[i as int].0, self.v4@[i as int].1).wf());
                    proof {
                        lemma_pow2_pos((32 - len) as nat);
                        lemma_same_block(n as int, net as int, block_size(32, len as nat));
                    }
                    if ipv4_network_of(n, len) == net {
                        assert(self@.v4[i as int] == (net, len));
                        return true;
                    }
                }
                false
            },
            IpAddr::V6(n) => {
                for i in 0..self.v6.len()
                    invariant
                        self@.wf(),
                        peer_ip(ip) == IpAddr::V6(n),
                        forall|j: int|
                            0 <= j < i ==> !Entry::V6(
                                (#[trigger] self.v6@[j]).0,
                                self.v6@[j].1,
                            ).holds(peer_ip(ip)),
                {
                    let (net, len) = self.v6[i];
                    assert(Entry::V6(self.v6@[i as int].0, self.v6@[i as int].1).wf());
                    proof {
                        lemma_pow2_pos((128 - len) as nat);
                        lemma_same_block(n as int, net as int, block_size(128, len as nat));
                    }
                    if network_of(n, len) == net {
                        assert(self@.v6[i as int] == (net, len));
                        return true;
                    }
                }
                false
            },
        }
    }

    /// How many entries there are.
    pub fn len(&self) -> (n: usize)
        ensures
            n == self@.count(),
            self@.wf(),
    {
        proof {
            use_type_invariant(self);
        }
        self.v4.len() + self.v6.len()
    }
}

// --- Laws ---

/// A whitelist without entries admits nobody.
pub proof fn law_empty_whitelist_admits_nobody(ip: IpAddr)
    ensures
        !WhitelistView::empty().admits(ip),
{
}

/// An IPv4 peer is admitted alike, whether it comes as itself or as an
/// IPv4-mapped IPv6 address.
pub proof fn law_mapped_peer_is_admitted_alike(list: WhitelistView, v4: u32)
    ensures
        list.admits(IpAddr::V6(mapped(v4))) == list.admits(IpAddr::V4(v4)),
{
}

/// One more entry admits the peers that it holds, besides those admitted before.
pub proof fn law_entries_are_alternatives(list: WhitelistView, entry: Entry, ip: IpAddr)
    ensures
        list.with(entry).admits(ip) <==> list.admits(ip) || entry.holds(peer_ip(ip)),
{
    let more = list.with(entry);
    let peer = peer_ip(ip);
    if exists|i: int|
        0 <= i < list.v4.len() && Entry::V4((#[trigger] list.v4[i]).0, list.v4[i].1).holds(peer) {
        let i = choose|i: int|
            0 <= i < list.v4.len() && Entry::V4((#[trigger] list.v4[i]).0, list.v4[i].1).holds(
                peer,
            );
        assert(more.v4[i] == list.v4[i]);
    }
    if exists|i: int|
        0 <= i < list.v6.len() && Entry::V6((#[trigger] list.v6[i]).0, list.v6[i].1).holds(peer) {
        let i = choose|i: int|
            0 <= i < list.v6.len() && Entry::V6((#[trigger] list.v6[i]).0, list.v6[i].1).holds(
                peer,
            );
        assert(more.v6[i] == list.v6[i]);
    }
    if entry.holds(peer) {
        match entry {
            Entry::V4(net, len) => {
                assert(more.v4[list.v4.len() as int] == (net, len));
            },
            Entry::V6(net, len) => {
                assert(more.v6[list.v6.len() as int] == (net, len));
            },
        }
    }
}

/// Whether line `i` of `lines` holds an entry that holds the peer `ip`.
pub open spec fn line_admits(lines: Seq<Seq<char>>, i: int, ip: IpAddr) -> bool {
    entry_of_line(lines[i], (i + 1) as nat) matches Ok(Some(entry)) && entry.holds(peer_ip(ip))
}

/// A file that can be read admits a peer exactly if one of its lines holds an
/// entry that does.
pub proof fn law_file_admits_by_line(lines: Seq<Seq<char>>, ip: IpAddr)
    requires
        entries_of_lines(lines) is Ok,
    ensures
        entries_of_lines(lines)->Ok_0.admits(ip) <==> exists|i: int|
            0 <= i < lines.len() && #[trigger] line_admits(lines, i, ip),
    decreases lines.len(),
{
    if lines.len() > 0 {
        let n = lines.len() - 1;
        let front = lines.drop_last();
        law_file_admits_by_line(front, ip);
        let list = entries_of_lines(front)->Ok_0;
        assert forall|i: int| 0 <= i < n implies line_admits(front, i, ip) == line_admits(
            lines,
            i,
            ip,
        ) by {
            assert(front[i] == lines[i]);
        }
        if let Ok(Some(entry)) = entry_of_line(lines.last(), lines.len()) {
            law_entries_are_alternatives(list, entry, ip);
        }
        if list.admits(ip) {
            let i = choose|i: int| 0 <= i < front.len() && #[trigger] line_admits(front, i, ip);
            assert(line_admits(lines, i, ip));
        }
        if exists|i: int| 0 <= i < lines.len() && #[trigger] line_admits(lines, i, ip) {
            let i = choose|i: int| 0 <= i < lines.len() && #[trigger] line_admits(lines, i, ip);
            if i < n {
                assert(line_admits(front, i, ip));
            }
        }
        assert(line_admits(lines, n, ip) <==> (entry_of_line(lines.last(), lines.len()) matches Ok(
            Some(entry),
        ) && entry.holds(peer_ip(ip))));
    }
}

/// Every entry that a file holds has a prefix length in range and is kept with
/// the bits behind its prefix cleared.
pub proof fn law_entries_start_their_blocks(lines: Seq<Seq<char>>)
    requires
        entries_of_lines(lines) is Ok,
    ensures
        entries_of_lines(lines)->Ok_0.wf(),
    decreases lines.len(),
{
    if lines.len() > 0 {
        law_entries_start_their_blocks(lines.drop_last());
        assert forall|ip: Option<IpAddr>, len: Option<Seq<char>>, text: Seq<char>| #[trigger]
            entry_from_parts(ip, len, text, lines.len()) matches Ok(entry) ==> entry.wf() by {
            lemma_entry_wf(ip, len, text, lines.len());
        }
    }
}

proof fn lemma_entry_wf(ip: Option<IpAddr>, len: Option<Seq<char>>, text: Seq<char>, number: nat)
    ensures
        entry_from_parts(ip, len, text, number) matches Ok(entry) ==> entry.wf(),
{
    if let Ok(entry) = entry_from_parts(ip, len, text, number) {
        match (entry, ip) {
            (Entry::V4(_, n), Some(IpAddr::V4(a))) => {
                lemma_pow2_pos((32 - n) as nat);
                lemma_same_block(a as int, a as int, block_size(32, n as nat));
            },
            (Entry::V6(_, n), Some(IpAddr::V6(a))) => {
                lemma_pow2_pos((128 - n) as nat);
                lemma_same_block(a as int, a as int, block_size(128, n as nat));
            },
            _ => {},
        }
    }
}

/// A well-formed entry holds an address exactly if the address, with the bits
/// behind the prefix cleared, is the address that the entry keeps.
pub proof fn law_entry_holds_what_it_masks_to(entry: Entry, ip: IpAddr)
    requires
        entry.wf(),
    ensures
        entry.holds(ip) <==> match (entry, ip) {
            (Entry::V4(net, len), IpAddr::V4(n)) => block_start(
                n as int,
                block_size(32, len as nat),
            ) == net,
            (Entry::V6(net, len), IpAddr::V6(n)) => block_start(
                n as int,
                block_size(128, len as nat),
            ) == net,
            _ => false,
        },
{
    match (entry, ip) {
        (Entry::V4(net, len), IpAddr::V4(n)) => {
            lemma_pow2_pos((32 - len) as nat);
            lemma_same_block(n as int, net as int, block_size(32, len as nat));
        },
        (Entry::V6(net, len), IpAddr::V6(n)) => {
            lemma_pow2_pos((128 - len) as nat);
            lemma_same_block(n as int, net as int, block_size(128, len as nat));
        },
        _ => {},
    }
}

/// A file of comments and empty lines is a whitelist without entries.
pub proof fn law_blank_lines_hold_no_entry(lines: Seq<Seq<char>>)
    requires
        forall|i: int| 0 <= i < lines.len() ==> line_text(#[trigger] lines[i]).len() == 0,
    ensures
        entries_of_lines(lines) == Ok::<WhitelistView, Failure>(WhitelistView::empty()),
    decreases lines.len(),
{
    if lines.len() > 0 {
        let front = lines.drop_last();
        assert forall|i: int| 0 <= i < front.len() implies line_text(#[trigger] front[i]).len()
            == 0 by {
            assert(front[i] == lines[i]);
        }
        law_blank_lines_hold_no_entry(front);
    }
}

/// An address alone is the same entry as the address with the full prefix
/// length of its family, and holds that address only.
pub proof fn law_single_address(ip: IpAddr, text: Seq<char>, number: nat, other: IpAddr)
    ensures
        ip is V4 ==> entry_from_parts(Some(ip), None, text, number) == entry_from_parts(
            Some(ip),
            Some("32"@),
            text,
            number,
        ),
        ip is V6 ==> entry_from_parts(Some(ip), None, text, number) == entry_from_parts(
            Some(ip),
            Some("128"@),
            text,
            number,
        ),
        entry_from_parts(Some(ip), None, text, number) matches Ok(entry) && (entry.holds(other)
            <==> other == ip),
{
    reveal_strlit("32");
    reveal_strlit("128");
    reveal_with_fuel(digits_value, 4);
    assert("32"@.drop_last().drop_last().len() == 0);
    assert("128"@.drop_last().drop_last().drop_last().len() == 0);
    assert(digits_value("32"@) == 32);
    assert(digits_value("128"@) == 128);
    lemma2_to64();
}

/// The prefix length 0 holds every address of the family.
pub proof fn law_zero_length_holds_the_family(
    ip: IpAddr,
    text: Seq<char>,
    number: nat,
    other: IpAddr,
)
    ensures
        entry_from_parts(Some(ip), Some("0"@), text, number) matches Ok(entry) && (entry.holds(
            other,
        ) <==> (other is V4 <==> ip is V4)),
{
    reveal_strlit("0");
    reveal_with_fuel(digits_value, 2);
    assert("0"@.drop_last().len() == 0);
    assert(digits_value("0"@) == 0);
    lemma2_to64();
    lemma2_to64_rest();
    lemma_pow2_adds(64, 64);
    match ip {
        IpAddr::V4(n) => {
            assert(n as int % 0x1_0000_0000 == n);
        },
        IpAddr::V6(n) => {
            assert(n as int % (u128::MAX + 1) == n);
        },
    }
}

/// An entry holds the addresses that share its leading bits, as many as its
/// prefix length says, with the address in the text.
pub proof fn law_entry_holds_by_leading_bits(
    ip: IpAddr,
    len: Option<Seq<char>>,
    text: Seq<char>,
    number: nat,
)
    requires
        entry_from_parts(Some(ip), len, text, number) is Ok,
    ensures
        ({
            let entry = entry_from_parts(Some(ip), len, text, number)->Ok_0;
            match (entry, ip) {
                (Entry::V4(_, n), IpAddr::V4(a)) => forall|b: u32|
                    #[trigger] entry.holds(IpAddr::V4(b)) <==> b as int / (block_size(
                        32,
                        n as nat,
                    ) as int) == a as int / (block_size(32, n as nat) as int),
                (Entry::V6(_, n), IpAddr::V6(a)) => forall|b: u128|
                    #[trigger] entry.holds(IpAddr::V6(b)) <==> b as int / (block_size(
                        128,
                        n as nat,
                    ) as int) == a as int / (block_size(128, n as nat) as int),
                _ => false,
            }
        }),
{
    let entry = entry_from_parts(Some(ip), len, text, number)->Ok_0;
    match (entry, ip) {
        (Entry::V4(_, n), IpAddr::V4(a)) => {
            lemma_pow2_pos((32 - n) as nat);
            assert forall|b: u32| #[trigger] entry.holds(IpAddr::V4(b)) <==> b as int / (block_size(
                32,
                n as nat,
            ) as int) == a as int / (block_size(32, n as nat) as int) by {
                lemma_same_quotient(b as int, a as int, block_size(32, n as nat));
            }
        },
        (Entry::V6(_, n), IpAddr::V6(a)) => {
            lemma_pow2_pos((128 - n) as nat);
            assert forall|b: u128|
                #[trigger] entry.holds(IpAddr::V6(b)) <==> b as int / (block_size(
                    128,
                    n as nat,
                ) as int) == a as int / (block_size(128, n as nat) as int) by {
                lemma_same_quotient(b as int, a as int, block_size(128, n as nat));
            }
        },
        _ => {},
    }
}

// --- Laws on the peer and on the file as it is written ---

/// An IPv6 peer that maps no IPv4 address is compared as it stands: it is admitted
/// exactly if one of the IPv6 blocks reaches from below or at it to above it.
pub proof fn law_ipv6_peer_is_compared_as_it_stands(list: WhitelistView, v6: u128)
    requires
        v6 < 0xffff_0000_0000 || v6 > 0xffff_ffff_ffff,
    ensures
        list.admits(IpAddr::V6(v6)) <==> exists|i: int|
            0 <= i < list.v6.len() && (#[trigger] list.v6[i]).0 <= v6 < list.v6[i].0 + pow2(
                (128 - list.v6[i].1) as nat,
            ),
{
    law_other_peers_stay(IpAddr::V6(v6));
}

/// An IPv4 peer is admitted exactly if one of the IPv4 blocks reaches from below
/// or at it to above it, and so is the IPv6 address that maps it.
pub proof fn law_ipv4_peer_is_compared_as_it_stands(list: WhitelistView, v4: u32, v6: u128)
    requires
        v6 == 0xffff_0000_0000 + v4,
    ensures
        list.admits(IpAddr::V4(v4)) <==> exists|i: int|
            0 <= i < list.v4.len() && (#[trigger] list.v4[i]).0 <= v4 < list.v4[i].0 + pow2(
                (32 - list.v4[i].1) as nat,
            ),
        list.admits(IpAddr::V6(v6)) == list.admits(IpAddr::V4(v4)),
{
    law_other_peers_stay(IpAddr::V4(v4));
    law_mapped_range(v6);
}

/// A whitelist with one address alone admits that peer and no other. An IPv6
/// address that maps an IPv4 address is left out: no peer is compared as one.
pub proof fn law_listed_address_admits_itself(ip: IpAddr, other: IpAddr)
    requires
        ip matches IpAddr::V6(v6) ==> v6 < 0xffff_0000_0000 || v6 > 0xffff_ffff_ffff,
        other matches IpAddr::V6(v6) ==> v6 < 0xffff_0000_0000 || v6 > 0xffff_ffff_ffff,
    ensures
        ({
            let entry = match ip {
                IpAddr::V4(n) => Entry::V4(n, 32),
                IpAddr::V6(n) => Entry::V6(n, 128),
            };
            WhitelistView::empty().with(entry).admits(other) <==> other == ip
        }),
{
    let entry = match ip {
        IpAddr::V4(n) => Entry::V4(n, 32),
        IpAddr::V6(n) => Entry::V6(n, 128),
    };
    law_entries_are_alternatives(WhitelistView::empty(), entry, other);
    law_empty_whitelist_admits_nobody(other);
    law_other_peers_stay(other);
    lemma2_to64();
}

/// Every entry counts once.
pub proof fn law_count(list: WhitelistView, entry: Entry)
    ensures
        WhitelistView::empty().count() == 0,
        list.with(entry).count() == list.count() + 1,
{
}

/// A comment behind a line does not change its entry.
pub proof fn law_comment_does_not_change_the_entry(
    line: Seq<char>,
    comment: Seq<char>,
    number: nat,
)
    ensures
        entry_of_line(line.push('#') + comment, number) == entry_of_line(line, number),
{
    law_comment_does_not_matter(line, comment);
}

/// How many bits an address of the family of `ip` has.
pub open spec fn bits_of(ip: IpAddr) -> nat {
    match ip {
        IpAddr::V4(_) => 32,
        IpAddr::V6(_) => 128,
    }
}

/// Whether `entry` holds the addresses that agree with `ip` in the first `len`
/// bits, and no others.
pub open spec fn holds_by_bits(entry: Entry, ip: IpAddr, len: nat, other: IpAddr) -> bool {
    entry.holds(other) <==> match (ip, other) {
        (IpAddr::V4(a), IpAddr::V4(b)) => len == 0 || b >> (32 - len) as u32 == a >> (32
            - len) as u32,
        (IpAddr::V6(a), IpAddr::V6(b)) => len == 0 || b >> (128 - len) as u128 == a >> (128
            - len) as u128,
        _ => false,
    }
}

/// A line with an address, a slash and a length is the block of the addresses
/// that agree with the address in so many leading bits; with white space around
/// each part or without. What is no length, or no length of the family, is
/// refused.
pub proof fn law_block_line_is_read(
    before: Seq<char>,
    addr: Seq<char>,
    mid: Seq<char>,
    mid2: Seq<char>,
    part: Seq<char>,
    after: Seq<char>,
    ip: IpAddr,
    number: nat,
    other: IpAddr,
)
    requires
        blank(before),
        blank(mid),
        blank(mid2),
        blank(after),
        addr.len() > 0,
        tight(addr),
        !addr.contains('/'),
        !addr.contains('#'),
        ip_text(addr) == Some(ip),
        part.len() > 0,
        tight(part),
        !part.contains('#'),
    ensures
        match entry_of_line(
            before + ((addr + mid).push('/') + (mid2 + part)) + after,
            number,
        ) {
            Ok(Some(entry)) => u8_text(part) matches Some(len) && len <= bits_of(ip)
                && holds_by_bits(entry, ip, len as nat, other),
            Ok(None) => false,
            Err(f) => (u8_text(part) matches Some(len) ==> len > bits_of(ip)) && f.kind
                == ErrorKind::InvalidInput,
        },
{
    let left = addr + mid;
    let right = mid2 + part;
    let core = left.push('/') + right;
    let none = Seq::<char>::empty();
    assert(core[0] == addr[0]);
    assert(core.last() == part.last());
    lemma_free_of(addr, mid, '#');
    lemma_free_of(addr, mid, '/');
    assert(!core.contains('#')) by {
        if core.contains('#') {
            let i = choose|i: int| 0 <= i < core.len() && core[i] == '#';
            let n = left.len() as int;
            if i < n {
                assert(left[i] == '#');
            } else if n < i <= n + mid2.len() {
                assert(is_white_space(mid2[i - n - 1]));
            } else if i > n {
                assert(part[i - n - 1 - mid2.len()] == '#');
            }
        }
    }
    law_line_text(before, core, after, none);
    law_split_once(left, '/', right);
    assert(none + addr + mid == left);
    law_trim(none, addr, mid);
    assert(mid2 + part + none == right);
    law_trim(mid2, part, none);
    if let Some(len) = u8_text(part) {
        match ip {
            IpAddr::V4(a) => {
                if len <= 32 {
                    if let IpAddr::V4(b) = other {
                        law_ipv4_block_by_bits(a, len, b);
                    }
                    lemma_pow2_pos((32 - len) as nat);
                    lemma_same_block(a as int, a as int, block_size(32, len as nat));
                }
            },
            IpAddr::V6(a) => {
                if len <= 128 {
                    if let IpAddr::V6(b) = other {
                        law_ipv6_block_by_bits(a, len, b);
                    }
                    lemma_pow2_pos((128 - len) as nat);
                    lemma_same_block(a as int, a as int, block_size(128, len as nat));
                }
            },
        }
    }
}

/// White space behind a text brings no character that is none.
proof fn lemma_free_of(s: Seq<char>, space: Seq<char>, c: char)
    requires
        !s.contains(c),
        blank(space),
        !is_white_space(c),
    ensures
        !(s + space).contains(c),
{
    let whole = s + space;
    if whole.contains(c) {
        let i = choose|i: int| 0 <= i < whole.len() && whole[i] == c;
        if i < s.len() {
            assert(s[i] == c);
        } else {
            assert(is_white_space(space[i - s.len()]));
        }
    }
}

/// A line with an address alone holds that address and no other. A line with
/// anything else alone is refused, with its number and its text.
pub proof fn law_address_line_is_read(
    before: Seq<char>,
    addr: Seq<char>,
    after: Seq<char>,
    number: nat,
    other: IpAddr,
)
    requires
        blank(before),
        blank(after),
        addr.len() > 0,
        tight(addr),
        !addr.contains('/'),
        !addr.contains('#'),
    ensures
        match (ip_text(addr), entry_of_line(before + addr + after, number)) {
            (Some(ip), Ok(Some(entry))) => entry.holds(other) <==> other == ip,
            (None, Err(f)) => f.kind == ErrorKind::InvalidInput && f.message
                == "invalid IP at whitelist line "@ + decimal(number) + ": "@ + addr,
            _ => false,
        },
{
    let none = Seq::<char>::empty();
    law_line_text(before, addr, after, none);
    law_split_once(addr, '/', none);
    if let Some(ip) = ip_text(addr) {
        law_single_address(ip, addr, number, other);
    }
}

/// A file is refused exactly if one of its lines is, and then for the first of
/// them.
pub proof fn law_first_bad_line_is_reported(lines: Seq<Seq<char>>)
    ensures
        entries_of_lines(lines) is Ok <==> forall|i: int|
            0 <= i < lines.len() ==> entry_of_line(#[trigger] lines[i], (i + 1) as nat) is Ok,
        entries_of_lines(lines) matches Err(f) ==> exists|i: int|
            0 <= i < lines.len() && entry_of_line(#[trigger] lines[i], (i + 1) as nat) == Err::<
                Option<Entry>,
                Failure,
            >(f) && forall|j: int|
                0 <= j < i ==> entry_of_line(#[trigger] lines[j], (j + 1) as nat) is Ok,
    decreases lines.len(),
{
    if lines.len() > 0 {
        let n = lines.len() - 1;
        let front = lines.drop_last();
        law_first_bad_line_is_reported(front);
        assert forall|i: int| 0 <= i < n implies front[i] == lines[i] by {}
        if entries_of_lines(front) is Ok {
            assert forall|j: int| 0 <= j < n implies entry_of_line(
                #[trigger] lines[j],
                (j + 1) as nat,
            ) is Ok by {
                assert(entry_of_line(front[j], (j + 1) as nat) is Ok);
            }
            assert(entry_of_line(lines[n], (n + 1) as nat) == entry_of_line(
                lines.last(),
                lines.len(),
            ));
        } else {
            let f = entries_of_lines(front)->Err_0;
            let i = choose|i: int|
                0 <= i < front.len() && entry_of_line(#[trigger] front[i], (i + 1) as nat) == Err::<
                    Option<Entry>,
                    Failure,
                >(f) && forall|j: int|
                    0 <= j < i ==> entry_of_line(#[trigger] front[j], (j + 1) as nat) is Ok;
            assert(lines[i] == front[i]);
            assert forall|j: int| 0 <= j < i implies entry_of_line(
                #[trigger] lines[j],
                (j + 1) as nat,
            ) is Ok by {
                assert(entry_of_line(front[j], (j + 1) as nat) is Ok);
            }
        }
    }
}

/// One more line refuses the file, leaves its list as it is, or adds one entry,
/// as the line says.
pub proof fn law_one_more_line(lines: Seq<Seq<char>>, line: Seq<char>)
    requires
        entries_of_lines(lines) is Ok,
    ensures
        ({
            let list = entries_of_lines(lines)->Ok_0;
            let more = entries_of_lines(lines.push(line));
            match entry_of_line(line, lines.len() + 1) {
                Err(f) => more == Err::<WhitelistView, Failure>(f),
                Ok(None) => more == Ok::<WhitelistView, Failure>(list),
                Ok(Some(_)) => more matches Ok(longer) && longer.count() == list.count() + 1,
            }
        }),
{
    assert(lines.push(line).drop_last() == lines);
}

} // verus!
