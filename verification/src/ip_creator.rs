//! Expansion of address specifications (single addresses, blocks, dashed
//! ranges) into groups of scan targets, and percentage sampling of groups.

use crate::ipv4::{format_ipv4, ipv4_round_trip, ipv4_text, parse_ipv4, read_ipv4};
use crate::text::{
    all_digits, decimal, decimal_value, find_char, push_decimal, push_text, read_decimal, split,
    split_at_first, split_is_nonempty, texts, to_chars, to_text, trim, trim_bounds,
};
use vstd::prelude::*;

verus! {

/// Why an address specification yields no targets.
#[derive(Debug, Clone, Copy, PartialEq, Eq, Structural)]
pub enum ExpandError {
    /// The text is not an address, a block or a range.
    ParseError,
    /// The range ends before it starts.
    InvalidRange,
    /// The range holds more than `MAX_RANGE` addresses.
    RangeTooLarge,
}

/// The most addresses that one dashed range may hold.
pub const MAX_RANGE: u64 = 65_536;

/// The error of `ipnetwork`, carried from the parser to where it is mapped.
#[verifier::external_type_specification]
#[verifier::external_body]
pub struct ExIpNetworkError(ipnetwork::IpNetworkError);

/// What `ipnetwork` reads from a block in CIDR notation: the address as
/// written and the prefix length, or `None` where it rejects the text.
pub uninterp spec fn cidr_parse(s: Seq<char>) -> Option<(u32, u8)>;

/// Parses `s` with `Ipv4Network::from_str` of `ipnetwork` and hands out the
/// address (`Ipv4Network::ip`, as a number) and the prefix length
/// (`Ipv4Network::prefix`). The outcome is what [`cidr_parse`] names; a
/// network that was accepted has a prefix of at most 32.
#[verifier::external_body]
fn parse_network(s: &str) -> (r: Result<(u32, u8), ipnetwork::IpNetworkError>)
    ensures
        r is Ok <==> cidr_parse(s@) is Some,
        r matches Ok(p) ==> cidr_parse(s@) == Some(p) && p.1 <= 32,
{
    let network = s.parse::<ipnetwork::Ipv4Network>()?;
    Ok((u32::from(network.ip()), network.prefix()))
}

/// The outcome of an expansion, with the targets as texts.
pub open spec fn expansion_view(r: Result<Vec<String>, ExpandError>) -> Result<
    Seq<Seq<char>>,
    ExpandError,
> {
    match r {
        Ok(v) => Ok(texts(v@)),
        Err(e) => Err(e),
    }
}

/// `count` consecutive addresses from `first` on, as dotted quads.
pub open spec fn address_run(first: int, count: int) -> Seq<Seq<char>> {
    Seq::new(
        if count >= 0 {
            count as nat
        } else {
            0
        },
        |i: int| ipv4_text((first + i) as u32),
    )
}

/// Two to the power `n`.
pub open spec fn two_to(n: nat) -> nat
    decreases n,
{
    if n == 0 {
        1
    } else {
        2 * two_to((n - 1) as nat)
    }
}

/// The number of addresses in a block with the given prefix length.
pub open spec fn block_size(prefix: u8) -> int {
    two_to((32 - prefix) as nat) as int
}

/// The lowest address of the block that holds `addr`.
pub open spec fn block_first(addr: u32, prefix: u8) -> int {
    addr as int - (addr as int) % block_size(prefix)
}

/// The highest address of the block that holds `addr`.
pub open spec fn block_last(addr: u32, prefix: u8) -> int {
    block_first(addr, prefix) + block_size(prefix) - 1
}

/// The targets of a block: every address strictly between its lowest and its
/// highest; for a block of a single address, that address.
pub open spec fn block_hosts(addr: u32, prefix: u8) -> Seq<Seq<char>> {
    if prefix >= 32 {
        seq![ipv4_text(addr)]
    } else {
        address_run(
            block_first(addr, prefix) + 1,
            block_last(addr, prefix) - block_first(addr, prefix) - 1,
        )
    }
}

/// Powers of two up to the 32nd: each is twice the one before, and none
/// exceeds 4294967296, which is the 32nd.
pub proof fn two_to_bounds(n: nat)
    requires
        n <= 32,
    ensures
        1 <= two_to(n) <= 4_294_967_296,
        n < 32 ==> two_to(n) <= 2_147_483_648,
        n == 32 ==> two_to(n) == 4_294_967_296,
        two_to(n + 1) == 2 * two_to(n),
    decreases 32 - n,
{
    if n == 32 {
        assert(two_to(32) == 4_294_967_296) by {
            reveal_with_fuel(two_to, 33);
        }
    } else {
        two_to_bounds(n + 1);
    }
}

/// Appends to `out` the dotted quads of `count` consecutive addresses from
/// `first` on.
fn push_run(out: &mut Vec<String>, first: u64, count: u64)
    requires
        first + count <= 4_294_967_296,
    ensures
        texts(final(out)@) == texts(old(out)@) + address_run(first as int, count as int),
{
    let mut i: u64 = 0;
    while i < count
        invariant
            i <= count,
            first + count <= 4_294_967_296,
            texts(out@) == texts(old(out)@) + address_run(first as int, i as int),
        decreases count - i,
    {
        let ghost before = out@;
        let text = format_ipv4((first + i) as u32);
        out.push(text);
        proof {
            assert(texts(out@) =~= texts(before).push(ipv4_text((first + i) as u32)));
            assert(address_run(first as int, i + 1) =~= address_run(first as int, i as int).push(
                ipv4_text((first + i) as u32),
            ));
            assert(texts(out@) =~= texts(old(out)@) + address_run(first as int, i + 1));
        }
        i += 1;
    }
}

/// The targets of the block of `prefix` leading bits around `addr`.
pub fn expand_block(addr: u32, prefix: u8) -> (ips: Vec<String>)
    requires
        prefix <= 32,
    ensures
        texts(ips@) == block_hosts(addr, prefix),
{
    let mut ips: Vec<String> = Vec::new();
    if prefix == 32 {
        ips.push(format_ipv4(addr));
        assert(texts(ips@) =~= block_hosts(addr, prefix));
        return ips;
    }
    let mut size: u64 = 1;
    let mut k: u8 = 0;
    while k < 32 - prefix
        invariant
            prefix < 32,
            k <= 32 - prefix,
            size == two_to(k as nat),
        decreases 32 - prefix - k,
    {
        proof {
            two_to_bounds(k as nat);
        }
        size = size * 2;
        k += 1;
    }
    proof {
        two_to_bounds(k as nat);
    }
    assert(addr as u64 % size <= addr as u64) by (nonlinear_arith)
        requires
            size > 0,
    ;
    let first: u64 = addr as u64 - addr as u64 % size;
    assert(first == block_first(addr, prefix));
    assert(first + size <= 4_294_967_296) by {
        two_to_bounds(k as nat);
        block_fits(addr as int, size as int, k as nat);
    }
    push_run(&mut ips, first + 1, size - 2);
    assert(texts(ips@) =~= block_hosts(addr, prefix));
    ips
}

/// A block that is aligned to its size ends at or before the end of the
/// address space.
proof fn block_fits(addr: int, size: int, k: nat)
    requires
        0 <= addr < 4_294_967_296,
        k <= 32,
        size == two_to(k),
    ensures
        addr - addr % size + size <= 4_294_967_296,
{
    two_to_bounds(k);
    let whole = two_to((32 - k) as nat) as int;
    product_of_powers(k, (32 - k) as nat);
    two_to_bounds(32);
    assert(k + (32 - k) as nat == 32);
    assert(size * whole == 4_294_967_296);
    let q = addr / size;
    assert(addr == q * size + addr % size) by (nonlinear_arith)
        requires
            size > 0,
            q == addr / size,
    ;
    assert(q < whole) by (nonlinear_arith)
        requires
            size > 0,
            q * size <= addr,
            addr < size * whole,
    ;
    assert((q + 1) * size <= whole * size) by (nonlinear_arith)
        requires
            q + 1 <= whole,
            size > 0,
    ;
    assert((q + 1) * size == q * size + size) by (nonlinear_arith);
}

/// Two to the `a` times two to the `b` is two to the `a + b`.
proof fn product_of_powers(a: nat, b: nat)
    ensures
        two_to(a) * two_to(b) == two_to(a + b),
    decreases a,
{
    if a > 0 {
        let a1 = (a - 1) as nat;
        product_of_powers(a1, b);
        assert(two_to(a) == 2 * two_to(a1));
        assert((a + b - 1) as nat == a1 + b);
        assert(two_to(a + b) == 2 * two_to(a1 + b));
        assert(two_to(a) * two_to(b) == 2 * (two_to(a1) * two_to(b))) by (nonlinear_arith)
            requires
                two_to(a) == 2 * two_to(a1),
        ;
    } else {
        assert(a + b == b);
        assert(two_to(a) == 1);
    }
}


/// What a block in CIDR notation expands to.
pub open spec fn expand_cidr_spec(s: Seq<char>) -> Result<Seq<Seq<char>>, ExpandError> {
    match cidr_parse(s) {
        Some((addr, prefix)) => Ok(block_hosts(addr, prefix)),
        None => Err(ExpandError::ParseError),
    }
}

/// What a dashed range expands to: both ends are dotted quads, white space
/// around them aside, and every address from the first to the last is a
/// target.
pub open spec fn expand_range_spec(s: Seq<char>) -> Result<Seq<Seq<char>>, ExpandError> {
    let parts = split(s, '-');
    if parts.len() != 2 {
        Err(ExpandError::ParseError)
    } else {
        match (parse_ipv4(trim(parts[0])), parse_ipv4(trim(parts[1]))) {
            (Some(start), Some(end)) => {
                if end < start {
                    Err(ExpandError::InvalidRange)
                } else if end - start + 1 > MAX_RANGE {
                    Err(ExpandError::RangeTooLarge)
                } else {
                    Ok(address_run(start as int, end - start + 1))
                }
            },
            _ => Err(ExpandError::ParseError),
        }
    }
}

/// What one line of an address list expands to. A line with a slash is a
/// block, one with a dash is a range, any other is a single address; a line
/// of white space alone expands to nothing.
pub open spec fn expand_line_spec(line: Seq<char>) -> Result<Seq<Seq<char>>, ExpandError> {
    let s = trim(line);
    if s.len() == 0 {
        Ok(Seq::empty())
    } else if s.contains('/') {
        expand_cidr_spec(s)
    } else if s.contains('-') {
        expand_range_spec(s)
    } else if parse_ipv4(s) is Some {
        Ok(seq![s])
    } else {
        Err(ExpandError::ParseError)
    }
}

/// Whether a line names one single address.
pub open spec fn is_single_spec(line: Seq<char>) -> bool {
    let s = trim(line);
    !s.contains('/') && !s.contains('-') && parse_ipv4(s) is Some
}

/// Expands the block that `cidr` writes in CIDR notation.
pub fn expand_cidr(cidr: &str) -> (r: Result<Vec<String>, ExpandError>)
    ensures
        expansion_view(r) == expand_cidr_spec(cidr@),
{
    match parse_network(cidr) {
        Ok((addr, prefix)) => Ok(expand_block(addr, prefix)),
        Err(_) => Err(ExpandError::ParseError),
    }
}

/// Expands the dashed range in `chars[from..to]`.
fn expand_range_in(chars: &Vec<char>, from: usize, to: usize) -> (r: Result<
    Vec<String>,
    ExpandError,
>)
    requires
        from <= to <= chars@.len(),
    ensures
        expansion_view(r) == expand_range_spec(chars@.subrange(from as int, to as int)),
{
    let ghost s = chars@;
    let ghost whole = s.subrange(from as int, to as int);
    let d1 = find_char(chars, from, to, '-');
    proof {
        split_at_first(s, from as int, to as int, d1 as int, '-');
    }
    if d1 == to {
        return Err(ExpandError::ParseError);
    }
    let d2 = find_char(chars, d1 + 1, to, '-');
    proof {
        split_at_first(s, d1 + 1, to as int, d2 as int, '-');
    }
    if d2 != to {
        proof {
            split_is_nonempty(s.subrange(d2 + 1, to as int), '-');
            assert(split(whole, '-').len() >= 3);
        }
        return Err(ExpandError::ParseError);
    }
    proof {
        assert(split(whole, '-') =~= seq![
            s.subrange(from as int, d1 as int),
            s.subrange(d1 + 1, to as int),
        ]);
    }
    let (a0, a1) = trim_bounds(chars, from, d1);
    let (b0, b1) = trim_bounds(chars, d1 + 1, to);
    let start = match read_ipv4(chars, a0, a1) {
        Some(v) => v,
        None => {
            return Err(ExpandError::ParseError);
        },
    };
    let end = match read_ipv4(chars, b0, b1) {
        Some(v) => v,
        None => {
            return Err(ExpandError::ParseError);
        },
    };
    if end < start {
        return Err(ExpandError::InvalidRange);
    }
    let count: u64 = (end - start) as u64 + 1;
    if count > MAX_RANGE {
        return Err(ExpandError::RangeTooLarge);
    }
    let mut ips: Vec<String> = Vec::new();
    push_run(&mut ips, start as u64, count);
    proof {
        assert(texts(ips@) =~= address_run(start as int, count as int));
    }
    Ok(ips)
}

/// Expands the dashed range that `range` writes.
pub fn expand_range(range: &str) -> (r: Result<Vec<String>, ExpandError>)
    ensures
        expansion_view(r) == expand_range_spec(range@),
{
    let chars = to_chars(range);
    proof {
        assert(chars@.subrange(0, chars@.len() as int) =~= range@);
    }
    expand_range_in(&chars, 0, chars.len())
}

/// Expands the line in `chars[from..to]`.
fn expand_line_in(chars: &Vec<char>, from: usize, to: usize) -> (r: Result<
    Vec<String>,
    ExpandError,
>)
    requires
        from <= to <= chars@.len(),
    ensures
        expansion_view(r) == expand_line_spec(chars@.subrange(from as int, to as int)),
{
    let (a, b) = trim_bounds(chars, from, to);
    let ghost s = chars@.subrange(a as int, b as int);
    if a == b {
        let empty: Vec<String> = Vec::new();
        proof {
            assert(texts(empty@) =~= Seq::<Seq<char>>::empty());
        }
        return Ok(empty);
    }
    if find_char(chars, a, b, '/') < b {
        let text = to_text(chars, a, b);
        return expand_cidr(text.as_str());
    }
    if find_char(chars, a, b, '-') < b {
        return expand_range_in(chars, a, b);
    }
    match read_ipv4(chars, a, b) {
        Some(_) => {
            let mut ips: Vec<String> = Vec::new();
            ips.push(to_text(chars, a, b));
            proof {
                assert(texts(ips@) =~= seq![s]);
            }
            Ok(ips)
        },
        None => Err(ExpandError::ParseError),
    }
}

/// Expands one line of an address list into its targets.
pub fn expand_ip_line(line: &str) -> (r: Result<Vec<String>, ExpandError>)
    ensures
        expansion_view(r) == expand_line_spec(line@),
{
    let chars = to_chars(line);
    proof {
        assert(chars@.subrange(0, chars@.len() as int) =~= line@);
    }
    expand_line_in(&chars, 0, chars.len())
}

/// Whether `chars[from..to]` names one single address.
fn is_single_in(chars: &Vec<char>, from: usize, to: usize) -> (b: bool)
    requires
        from <= to <= chars@.len(),
    ensures
        b == is_single_spec(chars@.subrange(from as int, to as int)),
{
    let (a, b) = trim_bounds(chars, from, to);
    if find_char(chars, a, b, '/') < b {
        return false;
    }
    if find_char(chars, a, b, '-') < b {
        return false;
    }
    read_ipv4(chars, a, b).is_some()
}

/// Whether `line` names one single address, rather than a block or a range.
pub fn is_single_ip_line(line: &str) -> (b: bool)
    ensures
        b == is_single_spec(line@),
{
    let chars = to_chars(line);
    proof {
        assert(chars@.subrange(0, chars@.len() as int) =~= line@);
    }
    is_single_in(&chars, 0, chars.len())
}


/// The targets that one line of the address list expanded to.
#[derive(Debug, Clone)]
pub struct IpGroup {
    /// The line, trimmed; a sampled group also names the percentage.
    pub label: String,
    /// The targets, as dotted quads.
    pub ips: Vec<String>,
    /// Whether the line named one single address.
    pub is_single: bool,
}

/// An [`IpGroup`] as plain text.
pub ghost struct GroupView {
    pub label: Seq<char>,
    pub ips: Seq<Seq<char>>,
    pub is_single: bool,
}

impl View for IpGroup {
    type V = GroupView;

    open spec fn view(&self) -> GroupView {
        GroupView { label: self.label@, ips: texts(self.ips@), is_single: self.is_single }
    }
}

/// The views of a vector of groups.
pub open spec fn group_views(v: Seq<IpGroup>) -> Seq<GroupView> {
    Seq::new(v.len(), |i: int| v[i]@)
}

/// A line that was left out of the expansion, and why.
#[derive(Debug, Clone)]
pub struct SkippedLine {
    pub line: String,
    pub error: ExpandError,
}

/// The views of a vector of skipped lines.
pub open spec fn skipped_views(v: Seq<SkippedLine>) -> Seq<(Seq<char>, ExpandError)> {
    Seq::new(v.len(), |i: int| (v[i].line@, v[i].error))
}

/// The groups of an address list, and the lines of it that were skipped.
#[derive(Debug, Clone)]
pub struct Expansion {
    pub groups: Vec<IpGroup>,
    pub skipped: Vec<SkippedLine>,
}

/// What becomes of one line of an address list.
pub ghost enum LineOutcome {
    /// The line is blank, or names a block without targets.
    Nothing,
    /// The line yields a group of targets.
    Group(GroupView),
    /// The line is rejected.
    Skipped(Seq<char>, ExpandError),
}

/// What becomes of the line `raw`: it is trimmed and expanded; its label is
/// the trimmed line.
pub open spec fn line_outcome(raw: Seq<char>) -> LineOutcome {
    let line = trim(raw);
    if line.len() == 0 {
        LineOutcome::Nothing
    } else {
        match expand_line_spec(line) {
            Ok(ips) => {
                if ips.len() == 0 {
                    LineOutcome::Nothing
                } else {
                    LineOutcome::Group(
                        GroupView { label: line, ips: ips, is_single: is_single_spec(line) },
                    )
                }
            },
            Err(e) => LineOutcome::Skipped(line, e),
        }
    }
}

/// The groups that a list of lines yields, in the order of the lines.
pub open spec fn groups_of(lines: Seq<Seq<char>>) -> Seq<GroupView>
    decreases lines.len(),
{
    if lines.len() == 0 {
        Seq::empty()
    } else {
        let rest = groups_of(lines.drop_last());
        match line_outcome(lines.last()) {
            LineOutcome::Group(g) => rest.push(g),
            _ => rest,
        }
    }
}

/// The lines of a list that are rejected, each with its error, in order.
pub open spec fn skipped_of(lines: Seq<Seq<char>>) -> Seq<(Seq<char>, ExpandError)>
    decreases lines.len(),
{
    if lines.len() == 0 {
        Seq::empty()
    } else {
        let rest = skipped_of(lines.drop_last());
        match line_outcome(lines.last()) {
            LineOutcome::Skipped(line, e) => rest.push((line, e)),
            _ => rest,
        }
    }
}

/// Every group of an address list holds at least one target.
pub proof fn groups_hold_targets(lines: Seq<Seq<char>>)
    ensures
        forall|i: int| 0 <= i < groups_of(lines).len() ==> (#[trigger] groups_of(lines)[i]).ips.len() > 0,
    decreases lines.len(),
{
    if lines.len() > 0 {
        groups_hold_targets(lines.drop_last());
        let rest = groups_of(lines.drop_last());
        assert forall|i: int| 0 <= i < groups_of(lines).len() implies (#[trigger] groups_of(
            lines,
        )[i]).ips.len() > 0 by {
            if i < rest.len() {
                assert(groups_of(lines)[i] == rest[i]);
            }
        }
    }
}

/// Reads the line in `chars[from..to]` and adds its group to `groups`, or the
/// line to `skipped`, as [`line_outcome`] says.
fn take_line(
    chars: &Vec<char>,
    from: usize,
    to: usize,
    groups: &mut Vec<IpGroup>,
    skipped: &mut Vec<SkippedLine>,
)
    requires
        from <= to <= chars@.len(),
    ensures
        match line_outcome(chars@.subrange(from as int, to as int)) {
            LineOutcome::Nothing => {
                &&& group_views(final(groups)@) == group_views(old(groups)@)
                &&& skipped_views(final(skipped)@) == skipped_views(old(skipped)@)
            },
            LineOutcome::Group(g) => {
                &&& group_views(final(groups)@) == group_views(old(groups)@).push(g)
                &&& skipped_views(final(skipped)@) == skipped_views(old(skipped)@)
            },
            LineOutcome::Skipped(line, e) => {
                &&& group_views(final(groups)@) == group_views(old(groups)@)
                &&& skipped_views(final(skipped)@) == skipped_views(old(skipped)@).push((line, e))
            },
        },
{
    let (a, b) = trim_bounds(chars, from, to);
    if a == b {
        return ;
    }
    match expand_line_in(chars, a, b) {
        Ok(ips) => {
            if ips.len() > 0 {
                let is_single = is_single_in(chars, a, b);
                let label = to_text(chars, a, b);
                let group = IpGroup { label: label, ips: ips, is_single: is_single };
                groups.push(group);
                proof {
                    assert(group_views(groups@) =~= group_views(old(groups)@).push(group@));
                }
            }
        },
        Err(e) => {
            let line = to_text(chars, a, b);
            let entry = SkippedLine { line: line, error: e };
            skipped.push(entry);
            proof {
                assert(skipped_views(skipped@) =~= skipped_views(old(skipped)@).push(
                    (entry.line@, e),
                ));
            }
        },
    }
}

/// Expands an address list, one specification per line. Lines are the pieces
/// of `content` between line feeds.
pub fn expand_lines(content: &str) -> (r: Expansion)
    ensures
        group_views(r.groups@) == groups_of(split(content@, '\n')),
        skipped_views(r.skipped@) == skipped_of(split(content@, '\n')),
{
    let chars = to_chars(content);
    let n = chars.len();
    let mut groups: Vec<IpGroup> = Vec::new();
    let mut skipped: Vec<SkippedLine> = Vec::new();
    let mut start: usize = 0;
    let mut more = true;
    let ghost done: Seq<Seq<char>> = Seq::empty();
    proof {
        assert(chars@.subrange(0, n as int) =~= content@);
        assert(group_views(groups@) =~= groups_of(done));
        assert(skipped_views(skipped@) =~= skipped_of(done));
    }
    while more
        invariant
            n == chars@.len(),
            start <= n,
            more ==> split(content@, '\n') == done + split(
                chars@.subrange(start as int, n as int),
                '\n',
            ),
            !more ==> split(content@, '\n') == done,
            group_views(groups@) == groups_of(done),
            skipped_views(skipped@) == skipped_of(done),
        decreases n - start + if more { 1int } else { 0int },
    {
        let d = find_char(&chars, start, n, '\n');
        let ghost line = chars@.subrange(start as int, d as int);
        proof {
            split_at_first(chars@, start as int, n as int, d as int, '\n');
        }
        take_line(&chars, start, d, &mut groups, &mut skipped);
        proof {
            let next = done.push(line);
            assert(next.drop_last() =~= done);
            assert(next.last() == line);
            if d < n {
                assert(done + (seq![line] + split(chars@.subrange(d + 1, n as int), '\n')) =~= next
                    + split(chars@.subrange(d + 1, n as int), '\n'));
            } else {
                assert(done + seq![line] =~= next);
            }
            done = next;
        }
        if d == n {
            more = false;
        } else {
            start = d + 1;
        }
    }
    Expansion { groups: groups, skipped: skipped }
}

/// Whether some group is a block or a range, so that sampling has work.
pub fn has_ranges(groups: &Vec<IpGroup>) -> (b: bool)
    ensures
        b == exists|i: int| 0 <= i < groups@.len() && !(#[trigger] groups@[i]).is_single,
{
    let mut i: usize = 0;
    while i < groups.len()
        invariant
            i <= groups@.len(),
            forall|j: int| 0 <= j < i ==> (#[trigger] groups@[j]).is_single,
        decreases groups@.len() - i,
    {
        if !groups[i].is_single {
            return true;
        }
        i += 1;
    }
    false
}

/// The sampling percentage that an answer stands for: the number it writes
/// (digits, with or without a plus sign, white space around them aside), at
/// most 100; and 100 where it writes none.
pub open spec fn percent_of(answer: Seq<char>) -> int {
    let s = trim(answer);
    let digits = if s.len() > 0 && s[0] == '+' {
        s.drop_first()
    } else {
        s
    };
    if digits.len() > 0 && all_digits(digits) && decimal_value(digits) <= 100 {
        decimal_value(digits)
    } else {
        100
    }
}

/// Reads a sampling percentage from an answer typed by the user.
pub fn parse_percent(answer: &str) -> (percent: u32)
    ensures
        percent == percent_of(answer@),
        percent <= 100,
{
    let chars = to_chars(answer);
    let (a, b) = trim_bounds(&chars, 0, chars.len());
    proof {
        assert(chars@.subrange(0, chars@.len() as int) =~= answer@);
    }
    let ghost s = chars@.subrange(a as int, b as int);
    let from = if a < b && chars[a] == '+' {
        a + 1
    } else {
        a
    };
    proof {
        if a < b {
            assert(s[0] == chars@[a as int]);
        }
        if from == a + 1 {
            assert(s.drop_first() =~= chars@.subrange(from as int, b as int));
        }
    }
    match read_decimal(&chars, from, b, 100) {
        Some(v) => v as u32,
        None => 100,
    }
}

/// How many targets a sample of `percent` percent takes from `total`: the
/// percentage of the total, rounded up, but at least one and at most all.
pub open spec fn sample_size(total: int, percent: int) -> int {
    let wanted = (total * percent + 99) / 100;
    if total <= 0 {
        0
    } else if wanted < 1 {
        1
    } else if wanted > total {
        total
    } else {
        wanted
    }
}

/// Computes [`sample_size`].
pub fn sample_count(total: usize, percent: u32) -> (k: usize)
    ensures
        k == sample_size(total as int, percent as int),
        k <= total,
{
    if total == 0 {
        return 0;
    }
    assert(total as u128 * percent as u128 <= 0xffff_ffff_ffff_ffff * 0xffff_ffff) by (nonlinear_arith)
        requires
            total <= 0xffff_ffff_ffff_ffff,
            percent <= 0xffff_ffff,
    ;
    let wanted: u128 = (total as u128 * percent as u128 + 99) / 100;
    if wanted < 1 {
        1
    } else if wanted > total as u128 {
        total
    } else {
        wanted as usize
    }
}

/// The label of a sampled group.
pub open spec fn sampled_label(label: Seq<char>, percent: u32) -> Seq<char> {
    label + " (sample "@ + decimal(percent as nat) + "%)"@
}

/// Whether `sampled` is a sample of `source` at `percent` percent. A group
/// of a single address is kept as it is. Any other group is relabelled; at
/// 100 percent or more it keeps its targets, below that it keeps
/// [`sample_size`] of them, each taken from a place of its own.
pub open spec fn is_sample_of(source: GroupView, sampled: GroupView, percent: u32) -> bool {
    if source.is_single {
        sampled == source
    } else {
        &&& !sampled.is_single
        &&& sampled.label == sampled_label(source.label, percent)
        &&& if percent >= 100 {
            sampled.ips == source.ips
        } else {
            &&& sampled.ips.len() == sample_size(source.ips.len() as int, percent as int)
            &&& sampled.ips.to_multiset().subset_of(source.ips.to_multiset())
        }
    }
}

/// Draws `amount` items from `items` with `SliceRandom::partial_shuffle` of
/// `rand`, on the thread's generator. The shuffle only swaps items, so what it
/// hands out are `amount` of the items (all of them where there are fewer),
/// each from a place of its own; which ones, and in what order, is left to
/// chance.
#[verifier::external_body]
fn pick_at_random(items: Vec<String>, amount: usize) -> (picked: Vec<String>)
    ensures
        picked@.len() == if amount <= items@.len() {
            amount as int
        } else {
            items@.len() as int
        },
        texts(picked@).to_multiset().subset_of(texts(items@).to_multiset()),
{
    let mut items = items;
    let mut rng = rand::thread_rng();
    rand::seq::SliceRandom::partial_shuffle(items.as_mut_slice(), &mut rng, amount).0.to_vec()
}

/// Puts together a sampled group from the label of the group that was
/// sampled, the targets that were drawn, and the percentage.
pub fn sampled_group(label: &str, picked: Vec<String>, percent: u32) -> (g: IpGroup)
    ensures
        g@ == (GroupView {
            label: sampled_label(label@, percent),
            ips: texts(picked@),
            is_single: false,
        }),
{
    let mut text = String::new();
    push_text(&mut text, label);
    push_text(&mut text, " (sample ");
    push_decimal(&mut text, percent as u64);
    push_text(&mut text, "%)");
    proof {
        assert(text@ =~= sampled_label(label@, percent));
    }
    IpGroup { label: text, ips: picked, is_single: false }
}

/// Samples one group at `percent` percent.
pub fn sample_group(group: IpGroup, percent: u32) -> (g: IpGroup)
    ensures
        is_sample_of(group@, g@, percent),
{
    if group.is_single {
        return group;
    }
    let IpGroup { label, ips, is_single } = group;
    let picked = if percent >= 100 {
        ips
    } else {
        let k = sample_count(ips.len(), percent);
        pick_at_random(ips, k)
    };
    sampled_group(label.as_str(), picked, percent)
}

/// The groups among `groups` that hold a target.
pub open spec fn with_targets(groups: Seq<GroupView>) -> Seq<GroupView>
    decreases groups.len(),
{
    if groups.len() == 0 {
        Seq::empty()
    } else {
        let rest = with_targets(groups.drop_last());
        if groups.last().ips.len() > 0 {
            rest.push(groups.last())
        } else {
            rest
        }
    }
}

/// Whether `sampled` holds, in order, a sample of each group of `sources`
/// that holds a target, and nothing else.
pub open spec fn is_sampling_of(
    sources: Seq<GroupView>,
    sampled: Seq<GroupView>,
    percent: u32,
) -> bool {
    let kept = with_targets(sources);
    &&& sampled.len() == kept.len()
    &&& forall|i: int| 0 <= i < kept.len() ==> is_sample_of(#[trigger] kept[i], sampled[i], percent)
}

/// Samples every group at `percent` percent; groups without targets are
/// dropped.
pub fn sample_groups(groups: Vec<IpGroup>, percent: u32) -> (r: Vec<IpGroup>)
    ensures
        is_sampling_of(group_views(groups@), group_views(r@), percent),
{
    let ghost sources = group_views(groups@);
    let mut out: Vec<IpGroup> = Vec::new();
    let ghost seen: Seq<GroupView> = Seq::empty();
    for group in it: groups
        invariant
            group_views(it.seq()) == sources,
            seen == sources.take(it.index()),
            is_sampling_of(seen, group_views(out@), percent),
    {
        let ghost before = group_views(out@);
        let ghost view = group@;
        proof {
            assert(view == sources[it.index()]);
            let next = seen.push(view);
            assert(next.drop_last() =~= seen);
            assert(next =~= sources.take(it.index() + 1));
        }
        if group.ips.len() > 0 {
            let sampled = sample_group(group, percent);
            out.push(sampled);
            proof {
                assert(group_views(out@) =~= before.push(sampled@));
            }
        }
        proof {
            seen = seen.push(view);
        }
    }
    proof {
        assert(sources.take(sources.len() as int) =~= sources);
    }
    out
}

/// Builds the groups of targets of an address list: expands every line, then
/// samples the blocks and ranges at `percent` percent.
pub fn create_ips(content: &str, percent: u32) -> (r: Vec<IpGroup>)
    ensures
        group_views(r@).len() == groups_of(split(content@, '\n')).len(),
        forall|i: int|
            0 <= i < r@.len() ==> is_sample_of(
                #[trigger] groups_of(split(content@, '\n'))[i],
                r@[i]@,
                percent,
            ),
{
    let expansion = expand_lines(content);
    proof {
        groups_hold_targets(split(content@, '\n'));
        all_with_targets(groups_of(split(content@, '\n')));
    }
    sample_groups(expansion.groups, percent)
}

/// Where every group holds a target, none is dropped.
proof fn all_with_targets(groups: Seq<GroupView>)
    requires
        forall|i: int| 0 <= i < groups.len() ==> (#[trigger] groups[i]).ips.len() > 0,
    ensures
        with_targets(groups) == groups,
    decreases groups.len(),
{
    if groups.len() > 0 {
        all_with_targets(groups.drop_last());
        assert(groups.drop_last().push(groups.last()) =~= groups);
    }
}


/// The addresses of a run are written differently, each from all others.
pub proof fn address_run_is_distinct(first: int, count: int)
    requires
        0 <= first,
        first + count <= 4_294_967_296,
    ensures
        address_run(first, count).no_duplicates(),
{
    let run = address_run(first, count);
    assert forall|i: int, j: int| 0 <= i < run.len() && 0 <= j < run.len() && i != j implies run[i]
        != run[j] by {
        ipv4_round_trip((first + i) as u32);
        ipv4_round_trip((first + j) as u32);
    }
}

/// A sample of a group of distinct targets holds distinct targets.
pub proof fn sample_of_distinct_is_distinct(source: GroupView, sampled: GroupView, percent: u32)
    requires
        is_sample_of(source, sampled, percent),
        source.ips.no_duplicates(),
    ensures
        sampled.ips.no_duplicates(),
{
    if !source.is_single && percent < 100 {
        source.ips.lemma_multiset_has_no_duplicates();
        assert forall|x: Seq<char>| sampled.ips.to_multiset().count(x) <= 1 by {
            assert(sampled.ips.to_multiset().count(x) <= source.ips.to_multiset().count(x));
        }
        sampled.ips.lemma_multiset_has_no_duplicates_conv();
    }
}


/// The targets of a block are written differently, each from all others.
pub proof fn block_hosts_are_distinct(addr: u32, prefix: u8)
    ensures
        block_hosts(addr, prefix).no_duplicates(),
{
    if prefix < 32 {
        let k = (32 - prefix) as nat;
        let size = block_size(prefix);
        two_to_bounds(k);
        two_to_bounds((k - 1) as nat);
        assert(size >= 2);
        block_fits(addr as int, size, k);
        assert((addr as int) % size <= addr as int) by (nonlinear_arith)
            requires
                size > 0,
                addr >= 0,
        ;
        address_run_is_distinct(
            block_first(addr, prefix) + 1,
            block_last(addr, prefix) - block_first(addr, prefix) - 1,
        );
    }
}

/// The targets that a line expands to are written differently, each from all
/// others.
pub proof fn expansion_is_distinct(line: Seq<char>)
    ensures
        expand_line_spec(line) matches Ok(ips) ==> ips.no_duplicates(),
{
    let s = trim(line);
    if s.len() == 0 {
    } else if s.contains('/') {
        match cidr_parse(s) {
            Some((addr, prefix)) => {
                block_hosts_are_distinct(addr, prefix);
            },
            None => {},
        }
    } else if s.contains('-') {
        let parts = split(s, '-');
        if parts.len() == 2 {
            match (parse_ipv4(trim(parts[0])), parse_ipv4(trim(parts[1]))) {
                (Some(start), Some(end)) => {
                    if start <= end {
                        address_run_is_distinct(start as int, end - start + 1);
                    }
                },
                _ => {},
            }
        }
    }
}

/// Every group of an address list holds distinct targets.
pub proof fn groups_hold_distinct_targets(lines: Seq<Seq<char>>)
    ensures
        forall|i: int|
            0 <= i < groups_of(lines).len() ==> (#[trigger] groups_of(lines)[i]).ips.no_duplicates(),
    decreases lines.len(),
{
    if lines.len() > 0 {
        groups_hold_distinct_targets(lines.drop_last());
        expansion_is_distinct(trim(lines.last()));
        let rest = groups_of(lines.drop_last());
        assert forall|i: int| 0 <= i < groups_of(lines).len() implies (#[trigger] groups_of(
            lines,
        )[i]).ips.no_duplicates() by {
            if i < rest.len() {
                assert(groups_of(lines)[i] == rest[i]);
            }
        }
    }
}

/// Sampled or not, every group that is made of an address list holds
/// distinct targets.
pub proof fn samples_hold_distinct_targets(
    lines: Seq<Seq<char>>,
    sampled: Seq<GroupView>,
    percent: u32,
)
    requires
        sampled.len() == groups_of(lines).len(),
        forall|i: int|
            0 <= i < sampled.len() ==> is_sample_of(
                #[trigger] groups_of(lines)[i],
                sampled[i],
                percent,
            ),
    ensures
        forall|i: int| 0 <= i < sampled.len() ==> (#[trigger] sampled[i]).ips.no_duplicates(),
{
    groups_hold_distinct_targets(lines);
    assert forall|i: int| 0 <= i < sampled.len() implies (#[trigger] sampled[i]).ips.no_duplicates() by {
        let source = groups_of(lines)[i];
        assert(is_sample_of(source, sampled[i], percent));
        sample_of_distinct_is_distinct(source, sampled[i], percent);
    }
}

} // verus!
