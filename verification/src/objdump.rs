//! The address-to-symbol resolver: given a disassembly listing and a set of
//! addresses, a single forward merge-scan over the listing's lines and the
//! sorted addresses yields the symbol information of every address that has
//! an exact match, after the module's load base offset is added to each
//! listing address.

use vstd::prelude::*;

use crate::text;

verus! {

/// The symbol information resolved for one address: the address itself with
/// its `0x` prefix, the file location most recently named by the listing,
/// and the bracketed function name of the matching listing line.
#[derive(Debug, PartialEq)]
pub struct AddressInformation {
    pub address: String,
    pub file_location: String,
    pub function_name: String,
}

/// The model of one resolved address: each field as a character sequence.
#[verifier::ext_equal]
pub struct AddressInfoModel {
    pub address: Seq<char>,
    pub file_location: Seq<char>,
    pub function_name: Seq<char>,
}

impl View for AddressInformation {
    type V = AddressInfoModel;

    open spec fn view(&self) -> AddressInfoModel {
        AddressInfoModel {
            address: self.address@,
            file_location: self.file_location@,
            function_name: self.function_name@,
        }
    }
}

/// A numeric field of the listing, or the base address, that does not parse
/// as a hexadecimal number; it carries the offending text.
#[derive(Debug)]
pub struct AddressParseError {
    pub text: String,
}

/// The view of a sequence of resolved addresses: each as its model.
pub open spec fn view_infos(s: Seq<AddressInformation>) -> Seq<AddressInfoModel> {
    s.map_values(|a: AddressInformation| a@)
}

/// An address as the resolver compares it: ASCII lower case, with one
/// leading `0x` removed if present.
pub open spec fn spec_norm_addr(a: Seq<char>) -> Seq<char> {
    let low = text::spec_ascii_lower(a);
    if text::has_0x(low) {
        low.skip(2)
    } else {
        low
    }
}

/// Normalizes one address for comparison.
fn norm_addr(a: &String) -> (r: String)
    ensures
        r@ == spec_norm_addr(a@),
{
    let low = text::ascii_lowercase(a.as_str());
    let n = low.as_str().unicode_len();
    if n >= 2 {
        let c0 = low.as_str().get_char(0);
        let c1 = low.as_str().get_char(1);
        if c0 == '0' && c1 == 'x' {
            proof {
                assert(low@.subrange(2, n as int) =~= low@.skip(2));
            }
            return low.as_str().substring_char(2, n).to_owned();
        }
    }
    low
}

/// Inserts `x` into `s` before the first element greater than it.
pub open spec fn spec_insert_lex(s: Seq<Seq<char>>, x: Seq<char>) -> Seq<Seq<char>>
    decreases s.len(),
{
    if s.len() == 0 {
        seq![x]
    } else if text::lex_lt(x, s[0]) {
        seq![x] + s
    } else {
        seq![s[0]] + spec_insert_lex(s.drop_first(), x)
    }
}

/// Sorts `s` into lexicographic order by repeated insertion.
pub open spec fn spec_sort_lex(s: Seq<Seq<char>>) -> Seq<Seq<char>>
    decreases s.len(),
{
    if s.len() == 0 {
        seq![]
    } else {
        spec_insert_lex(spec_sort_lex(s.drop_last()), s.last())
    }
}

proof fn lemma_insert_lex_at(s: Seq<Seq<char>>, x: Seq<char>, j: int)
    requires
        0 <= j <= s.len(),
        forall|k: int| 0 <= k < j ==> !text::lex_lt(x, #[trigger] s[k]),
        j == s.len() || text::lex_lt(x, s[j]),
    ensures
        spec_insert_lex(s, x) == s.insert(j, x),
    decreases s.len(),
{
    if s.len() == 0 {
        assert(s.insert(0, x) =~= seq![x]);
    } else if text::lex_lt(x, s[0]) {
        assert(j == 0);
        assert(s.insert(0, x) =~= seq![x] + s);
    } else {
        assert(j >= 1);
        lemma_insert_lex_at(s.drop_first(), x, j - 1);
        assert(seq![s[0]] + s.drop_first().insert(j - 1, x) =~= s.insert(j, x));
    }
}

/// Sorts addresses into lexicographic character order, keeping equal
/// elements, exactly as `spec_sort_lex` arranges them.
fn sort_addresses(v: &Vec<String>) -> (r: Vec<String>)
    ensures
        r.deep_view() == spec_sort_lex(v.deep_view()),
{
    let mut sorted: Vec<String> = Vec::new();
    let n = v.len();
    let mut i: usize = 0;
    proof {
        assert(v.deep_view().take(0) =~= Seq::<Seq<char>>::empty());
        assert(sorted.deep_view() =~= spec_sort_lex(v.deep_view().take(0)));
    }
    while i < n
        invariant
            0 <= i <= n,
            n == v@.len(),
            sorted.deep_view() == spec_sort_lex(v.deep_view().take(i as int)),
        decreases n - i,
    {
        let x = v[i].clone();
        proof {
            assert(x@ == v.deep_view()[i as int]);
        }
        let m = sorted.len();
        let mut j: usize = 0;
        loop
            invariant
                0 <= j <= m,
                m == sorted@.len(),
                forall|k: int|
                    0 <= k < j ==> !text::lex_lt(x@, (#[trigger] sorted@[k])@),
            ensures
                0 <= j <= m,
                forall|k: int|
                    0 <= k < j ==> !text::lex_lt(x@, (#[trigger] sorted@[k])@),
                j == m || text::lex_lt(x@, sorted@[j as int]@),
            decreases m - j,
        {
            if j >= m {
                break ;
            }
            if text::str_lt(x.as_str(), sorted[j].as_str()) {
                break ;
            }
            j = j + 1;
        }
        let ghost pre = sorted.deep_view();
        sorted.insert(j, x);
        proof {
            assert(forall|k: int| 0 <= k < j ==> !text::lex_lt(x@, #[trigger] pre[k]));
            lemma_insert_lex_at(pre, x@, j as int);
            assert(sorted.deep_view() =~= pre.insert(j as int, x@));
            assert(v.deep_view().take(i + 1).drop_last() =~= v.deep_view().take(i as int));
            assert(v.deep_view().take(i + 1).last() == v.deep_view()[i as int]);
        }
        i = i + 1;
    }
    proof {
        assert(v.deep_view().take(n as int) =~= v.deep_view());
    }
    sorted
}

/// Advances the target cursor for one listing line whose runtime address
/// renders as `a`: targets below `a` are passed over as misses, an exact
/// match records a hit with the current file location and function name and
/// consumes the target, and a target above `a` leaves the cursor in place.
pub open spec fn spec_scan_targets(
    targets: Seq<Seq<char>>,
    ti: int,
    a: Seq<char>,
    f: Seq<char>,
    floc: Seq<char>,
    acc: Seq<AddressInfoModel>,
) -> (int, Seq<AddressInfoModel>)
    decreases targets.len() - ti,
        when 0 <= ti
{
    if ti >= targets.len() {
        (ti, acc)
    } else if a == targets[ti] {
        (
            ti + 1,
            acc.push(
                AddressInfoModel {
                    address: "0x"@ + targets[ti],
                    file_location: floc,
                    function_name: f,
                },
            ),
        )
    } else if text::lex_lt(a, targets[ti]) {
        (ti, acc)
    } else {
        spec_scan_targets(targets, ti + 1, a, f, floc, acc)
    }
}

/// Whether a listing line opens a disassembled instruction entry: it begins
/// with a zero or a space and splits into at least an address field and a
/// symbol field. Lines that do not are ignored.
pub open spec fn is_instruction_line(line: Seq<char>) -> bool {
    line.len() > 0 && (line[0] == '0' || line[0] == ' ') && text::spec_split_ws(line, 0).len() >= 2
}

/// The address field of an instruction line, with leading zeros and spaces
/// removed.
pub open spec fn line_addr_field(line: Seq<char>) -> Seq<char> {
    text::spec_trim_start_zeros(text::spec_split_ws(line, 0)[0])
}

/// Whether the trimmed address field of an instruction line parses as a
/// hexadecimal number no larger than `i64::MAX`.
pub open spec fn line_addr_ok(line: Seq<char>) -> bool {
    let araw = line_addr_field(line);
    araw.len() > 0 && text::is_hex_digits(araw) && text::hex_val(araw) <= i64::MAX
}

/// The runtime address of an instruction line: the parsed listing address
/// plus the module's load base, rendered in lowercase hexadecimal.
pub open spec fn line_runtime_addr(line: Seq<char>, base: u64) -> Seq<char> {
    text::spec_hex((base + text::hex_val(line_addr_field(line))) as nat)
}

/// The bracket-trimmed function name of an instruction line.
pub open spec fn line_func_name(line: Seq<char>) -> Seq<char> {
    text::spec_trim_angles(text::spec_split_ws(line, 0)[1])
}

/// Scans listing lines from `li` on, as long as targets remain. A line
/// beginning with a path separator updates the running file location. An
/// instruction line whose address field does not parse fails the whole
/// resolve with that field; one that parses feeds the merge of
/// `spec_scan_targets`. Every other line is ignored.
pub open spec fn spec_scan_lines(
    lines: Seq<Seq<char>>,
    targets: Seq<Seq<char>>,
    base: u64,
    li: int,
    ti: int,
    floc: Seq<char>,
    acc: Seq<AddressInfoModel>,
) -> Result<Seq<AddressInfoModel>, Seq<char>>
    decreases lines.len() - li,
        when 0 <= li && 0 <= ti
        via spec_scan_lines_dec
{
    if li >= lines.len() || ti >= targets.len() {
        Ok(acc)
    } else {
        let line = lines[li];
        let floc2 = if line.len() > 0 && line[0] == '/' {
            text::spec_trim_end_ws(line)
        } else {
            floc
        };
        if !is_instruction_line(line) {
            spec_scan_lines(lines, targets, base, li + 1, ti, floc2, acc)
        } else if !line_addr_ok(line) {
            Err(line_addr_field(line))
        } else {
            let scanned = spec_scan_targets(
                targets,
                ti,
                line_runtime_addr(line, base),
                line_func_name(line),
                floc2,
                acc,
            );
            spec_scan_lines(lines, targets, base, li + 1, scanned.0, floc2, scanned.1)
        }
    }
}

#[via_fn]
proof fn spec_scan_lines_dec(
    lines: Seq<Seq<char>>,
    targets: Seq<Seq<char>>,
    base: u64,
    li: int,
    ti: int,
    floc: Seq<char>,
    acc: Seq<AddressInfoModel>,
) {
    if 0 <= li && li < lines.len() && 0 <= ti && ti < targets.len() {
        let line = lines[li];
        if is_instruction_line(line) && line_addr_ok(line) {
            let floc2 = if line.len() > 0 && line[0] == '/' {
                text::spec_trim_end_ws(line)
            } else {
                floc
            };
            lemma_scan_targets_bounds(
                targets,
                ti,
                line_runtime_addr(line, base),
                line_func_name(line),
                floc2,
                acc,
            );
        }
    }
}

/// The target cursor never moves backwards and never passes the end.
proof fn lemma_scan_targets_bounds(
    targets: Seq<Seq<char>>,
    ti: int,
    a: Seq<char>,
    f: Seq<char>,
    floc: Seq<char>,
    acc: Seq<AddressInfoModel>,
)
    requires
        0 <= ti,
    ensures
        ti <= spec_scan_targets(targets, ti, a, f, floc, acc).0,
        spec_scan_targets(targets, ti, a, f, floc, acc).0 <= vstd::math::max(
            ti,
            targets.len() as int,
        ),
    decreases targets.len() - ti,
{
    if ti < targets.len() && a != targets[ti] && !text::lex_lt(a, targets[ti]) {
        lemma_scan_targets_bounds(targets, ti + 1, a, f, floc, acc);
    }
}

/// Resolves the sorted, normalized `targets` against the listing: the scan
/// starts at its first line with an empty file location.
pub open spec fn spec_resolve_sorted(
    listing: Seq<char>,
    targets: Seq<Seq<char>>,
    base: u64,
) -> Result<Seq<AddressInfoModel>, Seq<char>> {
    spec_scan_lines(
        text::spec_split_lines(listing, 0),
        targets,
        base,
        0,
        0,
        Seq::empty(),
        Seq::empty(),
    )
}

/// Every address of the list, normalized for comparison.
pub open spec fn norm_all(addrs: Seq<Seq<char>>) -> Seq<Seq<char>> {
    addrs.map_values(|a: Seq<char>| spec_norm_addr(a))
}

/// Resolves `addrs` against the listing: the base address is stripped of its
/// `0x` prefix and parsed, the addresses are normalized and sorted, and the
/// merge-scan runs over the listing's lines.
pub open spec fn spec_resolve(
    listing: Seq<char>,
    base_str: Seq<char>,
    addrs: Seq<Seq<char>>,
) -> Result<Seq<AddressInfoModel>, Seq<char>> {
    let bs = text::spec_strip_0x(base_str);
    if !(bs.len() > 0 && text::is_hex_digits(bs) && text::hex_val(bs) <= i64::MAX) {
        Err(bs)
    } else {
        spec_resolve_sorted(listing, spec_sort_lex(norm_all(addrs)), text::hex_val(bs) as u64)
    }
}

/// Resolves every address of `address_list` that has an exact match in the
/// disassembly listing, as `spec_resolve` gives them: addresses are
/// normalized and sorted, each instruction line's address plus the base is
/// merged against them, and an unmatched address is simply absent from the
/// result. Only a malformed hexadecimal field fails the call.
pub fn get_addr2info_map(
    listing: &str,
    base_address_str: &str,
    address_list: &Vec<String>,
) -> (r: Result<Vec<AddressInformation>, AddressParseError>)
    ensures
        (match r {
            Ok(infos) => spec_resolve(listing@, base_address_str@, address_list.deep_view())
                == Ok::<Seq<AddressInfoModel>, Seq<char>>(view_infos(infos@)),
            Err(e) => spec_resolve(listing@, base_address_str@, address_list.deep_view()) == Err::<
                Seq<AddressInfoModel>,
                Seq<char>,
            >(e.text@),
        }),
{
    let bs = text::strip_0x_prefix(base_address_str);
    let base: u64 = match text::parse_hex_addr(bs.as_str()) {
        Some(v) => v,
        None => {
            return Err(AddressParseError { text: bs });
        },
    };
    let mut norm: Vec<String> = Vec::new();
    let an = address_list.len();
    let mut i: usize = 0;
    proof {
        assert(norm.deep_view() =~= norm_all(address_list.deep_view().take(0)));
    }
    while i < an
        invariant
            0 <= i <= an,
            an == address_list@.len(),
            norm.deep_view() == norm_all(address_list.deep_view().take(i as int)),
        decreases an - i,
    {
        let a = norm_addr(&address_list[i]);
        proof {
            assert(address_list@[i as int]@ == address_list.deep_view()[i as int]);
            assert(a@ == spec_norm_addr(address_list.deep_view()[i as int]));
        }
        let ghost pre = norm.deep_view();
        norm.push(a);
        proof {
            let full = address_list.deep_view();
            assert(pre.len() == i as int);
            assert(norm.deep_view() =~= pre.push(a@));
            assert(forall|k: int|
                0 <= k < i ==> #[trigger] norm_all(full.take(i as int))[k] == spec_norm_addr(
                    full.take(i as int)[k],
                ));
            assert(forall|k: int|
                0 <= k <= i ==> #[trigger] norm_all(full.take(i + 1))[k] == spec_norm_addr(
                    full.take(i + 1)[k],
                ));
            assert(norm.deep_view() =~= norm_all(full.take(i + 1)));
        }
        i = i + 1;
    }
    proof {
        assert(address_list.deep_view().take(an as int) =~= address_list.deep_view());
    }
    let targets = sort_addresses(&norm);
    let lines = text::split_lines(listing);
    let ghost tgs = targets.deep_view();
    let ghost lns = lines.deep_view();
    let mut infos: Vec<AddressInformation> = Vec::new();
    let mut floc: String = String::new();
    let mut ti: usize = 0;
    let mut li: usize = 0;
    let nl = lines.len();
    let tl = targets.len();
    proof {
        assert(view_infos(infos@) =~= Seq::<AddressInfoModel>::empty());
    }
    while li < nl && ti < tl
        invariant
            0 <= li <= nl,
            0 <= ti <= tl,
            nl == lines@.len(),
            tl == targets@.len(),
            lns == lines.deep_view(),
            tgs == targets.deep_view(),
            lns == text::spec_split_lines(listing@, 0),
            tgs == spec_sort_lex(norm_all(address_list.deep_view())),
            bs@ == text::spec_strip_0x(base_address_str@),
            bs@.len() > 0 && text::is_hex_digits(bs@) && text::hex_val(bs@) <= i64::MAX,
            base == text::hex_val(bs@),
            spec_resolve_sorted(listing@, tgs, base) == spec_scan_lines(
                lns,
                tgs,
                base,
                li as int,
                ti as int,
                floc@,
                view_infos(infos@),
            ),
        decreases nl - li,
    {
        let ghost li0 = li as int;
        let ghost ti0 = ti as int;
        let ghost floc0 = floc@;
        let ghost acc0 = view_infos(infos@);
        let ghost line = lns[li as int];
        let mut starts_instr = false;
        match text::first_char(lines[li].as_str()) {
            Some(c) => {
                if c == '/' {
                    floc = text::trim_end_ws(lines[li].as_str());
                }
                if c == '0' || c == ' ' {
                    starts_instr = true;
                }
            },
            None => {},
        }
        let ghost floc2 = floc@;
        if starts_instr {
            let fields = text::split_whitespace_fields(lines[li].as_str());
            if fields.len() >= 2 {
                proof {
                    assert(is_instruction_line(line));
                    assert(fields.deep_view()[0] == fields@[0]@);
                    assert(fields.deep_view()[1] == fields@[1]@);
                }
                let araw = text::trim_start_zeros_spaces(fields[0].as_str());
                match text::parse_hex_addr(araw.as_str()) {
                    None => {
                        proof {
                            assert(!line_addr_ok(line));
                            assert(spec_scan_lines(lns, tgs, base, li0, ti0, floc0, acc0) == Err::<
                                Seq<AddressInfoModel>,
                                Seq<char>,
                            >(line_addr_field(line)));
                        }
                        return Err(AddressParseError { text: araw });
                    },
                    Some(av) => {
                        let runtime = base + av;
                        let a = text::u64_to_hex(runtime);
                        let f = text::trim_angle_brackets(fields[1].as_str());
                        proof {
                            assert(line_addr_ok(line));
                            assert(a@ == line_runtime_addr(line, base));
                            assert(f@ == line_func_name(line));
                        }
                        let ghost tin = ti as int;
                        let ghost accn = view_infos(infos@);
                        loop
                            invariant_except_break
                                spec_scan_targets(tgs, tin, a@, f@, floc2, accn)
                                    == spec_scan_targets(
                                    tgs,
                                    ti as int,
                                    a@,
                                    f@,
                                    floc2,
                                    view_infos(infos@),
                                ),
                            invariant
                                0 <= tin <= ti as int <= tl,
                                tl == targets@.len(),
                                tgs == targets.deep_view(),
                                a@ == line_runtime_addr(line, base),
                                f@ == line_func_name(line),
                                floc@ == floc2,
                            ensures
                                ti as int <= tl,
                                floc@ == floc2,
                                (ti as int, view_infos(infos@)) == spec_scan_targets(
                                    tgs,
                                    tin,
                                    a@,
                                    f@,
                                    floc2,
                                    accn,
                                ),
                            decreases tl - ti,
                        {
                            if ti >= tl {
                                break ;
                            }
                            proof {
                                assert(targets@[ti as int]@ == tgs[ti as int]);
                            }
                            if a == targets[ti] {
                                let hex_addr = ("0x".to_owned()).concat(targets[ti].as_str());
                                let entry = AddressInformation {
                                    address: hex_addr,
                                    file_location: floc.clone(),
                                    function_name: f.clone(),
                                };
                                proof {
                                    assert(entry@ =~~= (AddressInfoModel {
                                        address: "0x"@ + tgs[ti as int],
                                        file_location: floc2,
                                        function_name: f@,
                                    }));
                                    assert(view_infos(infos@.push(entry)) =~= view_infos(
                                        infos@,
                                    ).push(entry@));
                                }
                                infos.push(entry);
                                ti = ti + 1;
                                break ;
                            } else if text::str_lt(a.as_str(), targets[ti].as_str()) {
                                break ;
                            } else {
                                ti = ti + 1;
                            }
                        }
                        proof {
                            assert(spec_scan_lines(lns, tgs, base, li0, ti0, floc0, acc0)
                                == spec_scan_lines(
                                lns,
                                tgs,
                                base,
                                li0 + 1,
                                ti as int,
                                floc2,
                                view_infos(infos@),
                            ));
                        }
                    },
                }
            } else {
                proof {
                    assert(!is_instruction_line(line));
                    assert(spec_scan_lines(lns, tgs, base, li0, ti0, floc0, acc0)
                        == spec_scan_lines(lns, tgs, base, li0 + 1, ti0, floc2, acc0));
                }
            }
        } else {
            proof {
                assert(!is_instruction_line(line));
                assert(spec_scan_lines(lns, tgs, base, li0, ti0, floc0, acc0) == spec_scan_lines(
                    lns,
                    tgs,
                    base,
                    li0 + 1,
                    ti0,
                    floc2,
                    acc0,
                ));
            }
        }
        li = li + 1;
    }
    proof {
        assert(spec_scan_lines(lns, tgs, base, li as int, ti as int, floc@, view_infos(infos@))
            == Ok::<Seq<AddressInfoModel>, Seq<char>>(view_infos(infos@)));
    }
    Ok(infos)
}

/// What a mangled C++ symbol demangles to, if it parses as one: a function
/// of the symbol's characters alone.
pub uninterp spec fn demangled(s: Seq<char>) -> Option<Seq<char>>;

/// Relies on cpp_demangle's `Symbol::new` and `Symbol::demangle` with the
/// default options: whether a name parses as a mangled C++ symbol, and the
/// form it demangles to, depend on the name's characters alone.
#[verifier::external_body]
fn demangle_name(name: &String) -> (r: Option<String>)
    ensures
        r is Some <==> demangled(name@) is Some,
        r is Some ==> r->0@ == demangled(name@)->0,
{
    match cpp_demangle::Symbol::new(name.as_bytes()) {
        Ok(sym) => sym.demangle().ok(),
        Err(_) => None,
    }
}

/// A name as the renaming step displays it: its demangled form when it
/// parses as a mangled C++ symbol, the name itself otherwise.
pub open spec fn spec_display_name(name: Seq<char>) -> Seq<char> {
    match demangled(name) {
        Some(d) => d,
        None => name,
    }
}

/// Whether a name carries an unresolved address: it begins with `0x`.
pub open spec fn is_hex_name(name: Seq<char>) -> bool {
    text::has_0x(name)
}

/// The distinct `0x`-prefixed event names from `i` on, in first-occurrence
/// order, appended to those already collected.
pub open spec fn spec_collect_addrs(
    evs: Seq<crate::chrome::EventModel>,
    i: int,
    acc: Seq<Seq<char>>,
) -> Seq<Seq<char>>
    decreases evs.len() - i,
        when 0 <= i
{
    if i >= evs.len() {
        acc
    } else if is_hex_name(evs[i].name) && !acc.contains(evs[i].name) {
        spec_collect_addrs(evs, i + 1, acc.push(evs[i].name))
    } else {
        spec_collect_addrs(evs, i + 1, acc)
    }
}

/// Collects the distinct `0x`-prefixed event names, in first-occurrence
/// order: the addresses that symbol resolution will look up.
pub fn collect_hex_addresses(events: &Vec<crate::chrome::Event>) -> (r: Vec<String>)
    ensures
        r.deep_view() == spec_collect_addrs(
            crate::iftrace::view_events(events@),
            0,
            Seq::empty(),
        ),
{
    let ghost evs = crate::iftrace::view_events(events@);
    let mut addrs: Vec<String> = Vec::new();
    let n = events.len();
    let mut i: usize = 0;
    proof {
        assert(addrs.deep_view() =~= Seq::<Seq<char>>::empty());
    }
    while i < n
        invariant
            0 <= i <= n,
            n == events@.len(),
            evs == crate::iftrace::view_events(events@),
            spec_collect_addrs(evs, 0, Seq::empty()) == spec_collect_addrs(
                evs,
                i as int,
                addrs.deep_view(),
            ),
        decreases n - i,
    {
        let name = &events[i].name;
        proof {
            assert(evs[i as int].name == name@);
        }
        let mut starts_hex = false;
        let ns = name.as_str();
        if ns.unicode_len() >= 2 {
            if ns.get_char(0) == '0' && ns.get_char(1) == 'x' {
                starts_hex = true;
            }
        }
        if starts_hex {
            let m = addrs.len();
            let mut j: usize = 0;
            let mut present = false;
            loop
                invariant_except_break
                    !present,
                invariant
                    0 <= j <= m,
                    m == addrs@.len(),
                    forall|k: int| 0 <= k < j ==> addrs.deep_view()[k] != name@,
                ensures
                    present ==> addrs.deep_view().contains(name@),
                    !present ==> forall|k: int|
                        0 <= k < addrs.deep_view().len() ==> addrs.deep_view()[k] != name@,
                decreases m - j,
            {
                if j >= m {
                    break ;
                }
                if addrs[j] == *name {
                    present = true;
                    proof {
                        assert(addrs.deep_view()[j as int] == name@);
                    }
                    break ;
                }
                j = j + 1;
            }
            if !present {
                let ghost pre = addrs.deep_view();
                addrs.push(name.clone());
                proof {
                    assert(!pre.contains(name@));
                    assert(addrs.deep_view() =~= pre.push(name@));
                }
            } else {
                proof {
                    assert(addrs.deep_view().contains(name@));
                }
            }
        }
        i = i + 1;
    }
    addrs
}

/// The index of the first resolved entry whose address is `name`, or `-1`.
pub open spec fn spec_find_info(infos: Seq<AddressInfoModel>, name: Seq<char>) -> int
    decreases infos.len(),
{
    if infos.len() == 0 {
        -1
    } else if infos[0].address == name {
        0
    } else {
        let r = spec_find_info(infos.drop_first(), name);
        if r < 0 {
            -1
        } else {
            1 + r
        }
    }
}

proof fn lemma_find_info_at(infos: Seq<AddressInfoModel>, name: Seq<char>, i: int)
    requires
        0 <= i < infos.len(),
        forall|j: int| 0 <= j < i ==> infos[j].address != name,
        infos[i].address == name,
    ensures
        spec_find_info(infos, name) == i,
    decreases i,
{
    if i > 0 {
        lemma_find_info_at(infos.drop_first(), name, i - 1);
    }
}

proof fn lemma_find_info_none(infos: Seq<AddressInfoModel>, name: Seq<char>)
    requires
        forall|j: int| 0 <= j < infos.len() ==> infos[j].address != name,
    ensures
        spec_find_info(infos, name) == -1,
    decreases infos.len(),
{
    if infos.len() > 0 {
        lemma_find_info_none(infos.drop_first(), name);
    }
}

/// One event after the renaming step. An event whose name resolves is
/// renamed to the entry's function name, demangled unless demangling is off;
/// a resolved event other than a bare duration end also learns the entry's
/// file location as an argument, when that is asked for and non-empty.
pub open spec fn spec_rewrite_event(
    e: crate::chrome::EventModel,
    infos: Seq<AddressInfoModel>,
    function_file_location: bool,
    no_demangle: bool,
) -> crate::chrome::EventModel {
    let i = spec_find_info(infos, e.name);
    if i < 0 {
        e
    } else {
        let info = infos[i];
        let nm = if no_demangle {
            info.function_name
        } else {
            spec_display_name(info.function_name)
        };
        let e1 = crate::chrome::EventModel { name: nm, ..e };
        if e.event_type == crate::chrome::EventType::DurationEnd {
            e1
        } else if function_file_location && info.file_location.len() > 0 {
            crate::chrome::EventModel {
                args: Some(
                    crate::iftrace::spec_args_insert(e1.args, "file_location"@, info.file_location),
                ),
                ..e1
            }
        } else {
            e1
        }
    }
}

/// Renames every event whose name has resolved symbol information, exactly
/// as `spec_rewrite_event` rewrites each one.
pub fn rewrite_events(
    events: &mut Vec<crate::chrome::Event>,
    infos: &Vec<AddressInformation>,
    function_file_location: bool,
    no_demangle: bool,
)
    ensures
        final(events)@.len() == old(events)@.len(),
        forall|i: int|
            0 <= i < old(events)@.len() ==> (#[trigger] final(events)@[i])@ == spec_rewrite_event(
                old(events)@[i]@,
                view_infos(infos@),
                function_file_location,
                no_demangle,
            ),
{
    let ghost im = view_infos(infos@);
    let n = events.len();
    let mut i: usize = 0;
    while i < n
        invariant
            0 <= i <= n,
            n == events@.len(),
            im == view_infos(infos@),
            events@.len() == old(events)@.len(),
            forall|k: int| i <= k < n ==> #[trigger] events@[k] == old(events)@[k],
            forall|k: int|
                0 <= k < i ==> (#[trigger] events@[k])@ == spec_rewrite_event(
                    old(events)@[k]@,
                    im,
                    function_file_location,
                    no_demangle,
                ),
        decreases n - i,
    {
        let ghost e0 = events@[i as int]@;
        let m = infos.len();
        let mut j: usize = 0;
        let mut found = false;
        loop
            invariant_except_break
                !found,
            invariant
                0 <= j <= m,
                m == infos@.len(),
                im == view_infos(infos@),
                i < n == events@.len(),
                e0 == events@[i as int]@,
                forall|k: int| 0 <= k < j ==> im[k].address != e0.name,
            ensures
                0 <= j <= m,
                im == view_infos(infos@),
                found ==> j < m && im[j as int].address == e0.name && (forall|k: int|
                    0 <= k < j ==> im[k].address != e0.name),
                !found ==> forall|k: int| 0 <= k < m ==> im[k].address != e0.name,
            decreases m - j,
        {
            if j >= m {
                break ;
            }
            proof {
                assert(im[j as int] == infos@[j as int]@);
            }
            if infos[j].address == events[i].name {
                found = true;
                break ;
            }
            j = j + 1;
        }
        if found {
            proof {
                lemma_find_info_at(im, e0.name, j as int);
            }
            let mut nm = infos[j].function_name.clone();
            if !no_demangle {
                match demangle_name(&nm) {
                    Some(d) => {
                        nm = d;
                    },
                    None => {},
                }
            }
            proof {
                if no_demangle {
                    assert(nm@ == im[j as int].function_name);
                } else {
                    assert(nm@ == spec_display_name(im[j as int].function_name));
                }
            }
            let is_duration_end = events[i].event_type == crate::chrome::EventType::DurationEnd;
            let entry = vstd::std_specs::vec::vec_index_mut(events, i);
            entry.name = nm;
            if !is_duration_end {
                if function_file_location && infos[j].file_location.as_str().unicode_len() > 0 {
                    crate::iftrace::args_insert(
                        &mut entry.args,
                        "file_location".to_owned(),
                        infos[j].file_location.clone(),
                    );
                }
            }
            proof {
                assert(events@[i as int]@ =~~= spec_rewrite_event(
                    e0,
                    im,
                    function_file_location,
                    no_demangle,
                ));
            }
        } else {
            proof {
                lemma_find_info_none(im, e0.name);
                assert(events@[i as int]@ =~~= spec_rewrite_event(
                    e0,
                    im,
                    function_file_location,
                    no_demangle,
                ));
            }
        }
        i = i + 1;
    }
}

/// Whether a line is an instruction line whose address field parses.
pub open spec fn is_instr_ok(line: Seq<char>) -> bool {
    is_instruction_line(line) && line_addr_ok(line)
}

/// Whether line `j` matches target `t`: its runtime address renders as `t`.
pub open spec fn line_hits(lines: Seq<Seq<char>>, base: u64, t: Seq<char>, j: int) -> bool {
    0 <= j < lines.len() && is_instr_ok(lines[j]) && line_runtime_addr(lines[j], base) == t
}

/// Whether some line in `[lo, hi)` matches target `t`.
pub open spec fn hit_in(lines: Seq<Seq<char>>, base: u64, t: Seq<char>, lo: int, hi: int) -> bool {
    exists|j: int| lo <= j < hi && #[trigger] line_hits(lines, base, t, j)
}

/// Whether the resolved entries hold target `t`, under its `0x` prefix.
pub open spec fn contains_addr(acc: Seq<AddressInfoModel>, t: Seq<char>) -> bool {
    exists|i: int| 0 <= i < acc.len() && (#[trigger] acc[i]).address == "0x"@ + t
}

/// Whether the targets are strictly sorted, so in particular distinct.
pub open spec fn targets_sorted(targets: Seq<Seq<char>>) -> bool {
    forall|i: int, j: int|
        0 <= i < j < targets.len() ==> text::lex_lt(#[trigger] targets[i], #[trigger] targets[j])
}

/// Whether the runtime addresses of the listing's instruction lines never
/// decrease.
pub open spec fn lines_sorted(lines: Seq<Seq<char>>, base: u64) -> bool {
    forall|i: int, j: int|
        0 <= i < j < lines.len() && is_instr_ok(#[trigger] lines[i]) && is_instr_ok(
            #[trigger] lines[j],
        ) ==> text::lex_le(line_runtime_addr(lines[i], base), line_runtime_addr(lines[j], base))
}

/// Two targets under the same `0x` prefix are equal.
proof fn lemma_prefix_inj(a: Seq<char>, b: Seq<char>)
    requires
        "0x"@ + a == "0x"@ + b,
    ensures
        a == b,
{
    reveal_strlit("0x");
    assert(("0x"@ + a).skip(2) =~= a);
    assert(("0x"@ + b).skip(2) =~= b);
}

/// The merge against the targets for one line keeps the exact-match
/// accounting: what the accumulated entries hold, what the consumed targets
/// matched, and that unconsumed targets have matched nothing yet.
proof fn lemma_scan_targets_exact(
    lines: Seq<Seq<char>>,
    targets: Seq<Seq<char>>,
    base: u64,
    li: int,
    ti: int,
    f: Seq<char>,
    floc: Seq<char>,
    acc: Seq<AddressInfoModel>,
)
    requires
        0 <= li < lines.len(),
        0 <= ti <= targets.len(),
        is_instr_ok(lines[li]),
        targets_sorted(targets),
        lines_sorted(lines, base),
        forall|k: int| ti <= k < targets.len() ==> !contains_addr(acc, #[trigger] targets[k]),
        forall|k: int|
            0 <= k < ti ==> (contains_addr(acc, #[trigger] targets[k]) <==> hit_in(
                lines,
                base,
                targets[k],
                0,
                lines.len() as int,
            )),
        forall|k: int|
            ti <= k < targets.len() ==> !hit_in(lines, base, #[trigger] targets[k], 0, li),
    ensures
        ({
            let a = line_runtime_addr(lines[li], base);
            let scanned = spec_scan_targets(targets, ti, a, f, floc, acc);
            let ti2 = scanned.0;
            let acc2 = scanned.1;
            ti <= ti2 <= targets.len() && (forall|k: int|
                ti2 <= k < targets.len() ==> !contains_addr(acc2, #[trigger] targets[k])) && (
            forall|k: int|
                0 <= k < ti2 ==> (contains_addr(acc2, #[trigger] targets[k]) <==> hit_in(
                    lines,
                    base,
                    targets[k],
                    0,
                    lines.len() as int,
                ))) && (forall|k: int|
                ti2 <= k < targets.len() ==> !hit_in(lines, base, #[trigger] targets[k], 0, li + 1))
        }),
    decreases targets.len() - ti,
{
    let a = line_runtime_addr(lines[li], base);
    let scanned = spec_scan_targets(targets, ti, a, f, floc, acc);
    let ti2 = scanned.0;
    let acc2 = scanned.1;
    if ti >= targets.len() {
    } else if a == targets[ti] {
        let entry = AddressInfoModel {
            address: "0x"@ + targets[ti],
            file_location: floc,
            function_name: f,
        };
        let acc1 = acc.push(entry);
        assert forall|k: int| ti + 1 <= k < targets.len() implies !contains_addr(
            acc1,
            #[trigger] targets[k],
        ) by {
            if contains_addr(acc1, targets[k]) {
                let i = choose|i: int|
                    0 <= i < acc1.len() && (#[trigger] acc1[i]).address == "0x"@ + targets[k];
                if i < acc.len() {
                    assert(acc[i].address == "0x"@ + targets[k]);
                    assert(contains_addr(acc, targets[k]));
                } else {
                    lemma_prefix_inj(targets[ti], targets[k]);
                    text::lemma_lex_irrefl(targets[ti]);
                }
            }
        }
        assert forall|k: int| 0 <= k < ti + 1 implies (contains_addr(acc1, #[trigger] targets[k])
            <==> hit_in(lines, base, targets[k], 0, lines.len() as int)) by {
            if k == ti {
                assert(acc1[acc.len() as int].address == "0x"@ + targets[ti]);
                assert(contains_addr(acc1, targets[ti]));
                assert(line_hits(lines, base, targets[ti], li));
                assert(hit_in(lines, base, targets[ti], 0, lines.len() as int));
            } else {
                if contains_addr(acc1, targets[k]) {
                    let i = choose|i: int|
                        0 <= i < acc1.len() && (#[trigger] acc1[i]).address == "0x"@ + targets[k];
                    if i < acc.len() {
                        assert(contains_addr(acc, targets[k]));
                    } else {
                        lemma_prefix_inj(targets[ti], targets[k]);
                        text::lemma_lex_irrefl(targets[k]);
                    }
                }
                if contains_addr(acc, targets[k]) {
                    let i = choose|i: int|
                        0 <= i < acc.len() && (#[trigger] acc[i]).address == "0x"@ + targets[k];
                    assert(acc1[i].address == "0x"@ + targets[k]);
                    assert(contains_addr(acc1, targets[k]));
                }
            }
        }
        assert forall|k: int| ti + 1 <= k < targets.len() implies !hit_in(
            lines,
            base,
            #[trigger] targets[k],
            0,
            li + 1,
        ) by {
            if hit_in(lines, base, targets[k], 0, li + 1) {
                let j = choose|j: int| 0 <= j < li + 1 && #[trigger] line_hits(
                    lines,
                    base,
                    targets[k],
                    j,
                );
                if j < li {
                    assert(hit_in(lines, base, targets[k], 0, li));
                } else {
                    assert(targets[k] == a);
                    text::lemma_lex_irrefl(targets[ti]);
                }
            }
        }
    } else if text::lex_lt(a, targets[ti]) {
        assert forall|k: int| ti <= k < targets.len() implies !hit_in(
            lines,
            base,
            #[trigger] targets[k],
            0,
            li + 1,
        ) by {
            if hit_in(lines, base, targets[k], 0, li + 1) {
                let j = choose|j: int| 0 <= j < li + 1 && #[trigger] line_hits(
                    lines,
                    base,
                    targets[k],
                    j,
                );
                if j < li {
                    assert(hit_in(lines, base, targets[k], 0, li));
                } else {
                    assert(targets[k] == a);
                    if k == ti {
                        text::lemma_lex_irrefl(a);
                    } else {
                        assert(text::lex_lt(targets[ti], targets[k]));
                        text::lemma_lex_lt_trans(a, targets[ti], targets[k]);
                        text::lemma_lex_irrefl(a);
                    }
                }
            }
        }
    } else {
        text::lemma_lex_total(a, targets[ti]);
        assert(text::lex_lt(targets[ti], a));
        assert(!contains_addr(acc, targets[ti]));
        assert forall|k: int| 0 <= k < ti + 1 implies (contains_addr(acc, #[trigger] targets[k])
            <==> hit_in(lines, base, targets[k], 0, lines.len() as int)) by {
            if k == ti {
                assert(!hit_in(lines, base, targets[ti], 0, lines.len() as int)) by {
                    if hit_in(lines, base, targets[ti], 0, lines.len() as int) {
                        let j = choose|j: int| 0 <= j < lines.len() && #[trigger] line_hits(
                            lines,
                            base,
                            targets[ti],
                            j,
                        );
                        if j < li {
                            assert(hit_in(lines, base, targets[ti], 0, li));
                        } else if j == li {
                            text::lemma_lex_irrefl(a);
                        } else {
                            assert(text::lex_le(a, line_runtime_addr(lines[j], base)));
                            if a == line_runtime_addr(lines[j], base) {
                                text::lemma_lex_irrefl(a);
                            } else {
                                text::lemma_lex_lt_trans(
                                    targets[ti],
                                    a,
                                    line_runtime_addr(lines[j], base),
                                );
                                text::lemma_lex_irrefl(targets[ti]);
                            }
                        }
                    }
                }
            }
        }
        lemma_scan_targets_exact(lines, targets, base, li, ti + 1, f, floc, acc);
    }
}

/// The line scan keeps the exact-match accounting from any faithful state to
/// the final result.
proof fn lemma_scan_lines_exact(
    lines: Seq<Seq<char>>,
    targets: Seq<Seq<char>>,
    base: u64,
    li: int,
    ti: int,
    floc: Seq<char>,
    acc: Seq<AddressInfoModel>,
)
    requires
        0 <= li <= lines.len(),
        0 <= ti <= targets.len(),
        targets_sorted(targets),
        lines_sorted(lines, base),
        forall|k: int| ti <= k < targets.len() ==> !contains_addr(acc, #[trigger] targets[k]),
        forall|k: int|
            0 <= k < ti ==> (contains_addr(acc, #[trigger] targets[k]) <==> hit_in(
                lines,
                base,
                targets[k],
                0,
                lines.len() as int,
            )),
        forall|k: int|
            ti <= k < targets.len() ==> !hit_in(lines, base, #[trigger] targets[k], 0, li),
        spec_scan_lines(lines, targets, base, li, ti, floc, acc) is Ok,
    ensures
        ({
            let res = spec_scan_lines(lines, targets, base, li, ti, floc, acc)->Ok_0;
            forall|k: int|
                0 <= k < targets.len() ==> (contains_addr(res, #[trigger] targets[k]) <==> hit_in(
                    lines,
                    base,
                    targets[k],
                    0,
                    lines.len() as int,
                ))
        }),
    decreases lines.len() - li,
{
    let res = spec_scan_lines(lines, targets, base, li, ti, floc, acc)->Ok_0;
    if li >= lines.len() || ti >= targets.len() {
        assert forall|k: int| 0 <= k < targets.len() implies (contains_addr(
            res,
            #[trigger] targets[k],
        ) <==> hit_in(lines, base, targets[k], 0, lines.len() as int)) by {
            if k >= ti {
                assert(li == lines.len());
                assert(!hit_in(lines, base, targets[k], 0, li));
            }
        }
    } else {
        let line = lines[li];
        let floc2 = if line.len() > 0 && line[0] == '/' {
            text::spec_trim_end_ws(line)
        } else {
            floc
        };
        if !is_instruction_line(line) {
            assert forall|k: int| ti <= k < targets.len() implies !hit_in(
                lines,
                base,
                #[trigger] targets[k],
                0,
                li + 1,
            ) by {
                if hit_in(lines, base, targets[k], 0, li + 1) {
                    let j = choose|j: int| 0 <= j < li + 1 && #[trigger] line_hits(
                        lines,
                        base,
                        targets[k],
                        j,
                    );
                    if j < li {
                        assert(hit_in(lines, base, targets[k], 0, li));
                    }
                }
            }
            lemma_scan_lines_exact(lines, targets, base, li + 1, ti, floc2, acc);
        } else if !line_addr_ok(line) {
        } else {
            let a = line_runtime_addr(line, base);
            let scanned = spec_scan_targets(targets, ti, a, line_func_name(line), floc2, acc);
            lemma_scan_targets_exact(
                lines,
                targets,
                base,
                li,
                ti,
                line_func_name(line),
                floc2,
                acc,
            );
            lemma_scan_lines_exact(lines, targets, base, li + 1, scanned.0, floc2, scanned.1);
        }
    }
}

/// Law: resolution finds exactly the exact matches. Whenever the targets are
/// strictly sorted and the listing's instruction-line runtime addresses
/// never decrease, a resolve that reports no error holds an entry for a
/// target exactly when some instruction line's address, adjusted by the
/// load base, renders as that target; every other target is simply absent.
pub proof fn lemma_resolve_exact_matches(listing: Seq<char>, targets: Seq<Seq<char>>, base: u64)
    requires
        targets_sorted(targets),
        lines_sorted(text::spec_split_lines(listing, 0), base),
        spec_resolve_sorted(listing, targets, base) is Ok,
    ensures
        ({
            let lines = text::spec_split_lines(listing, 0);
            let res = spec_resolve_sorted(listing, targets, base)->Ok_0;
            forall|k: int|
                0 <= k < targets.len() ==> (contains_addr(res, #[trigger] targets[k]) <==> hit_in(
                    lines,
                    base,
                    targets[k],
                    0,
                    lines.len() as int,
                ))
        }),
{
    let lines = text::spec_split_lines(listing, 0);
    assert forall|k: int| 0 <= k < targets.len() implies !contains_addr(
        Seq::<AddressInfoModel>::empty(),
        #[trigger] targets[k],
    ) by {}
    lemma_scan_lines_exact(
        lines,
        targets,
        base,
        0,
        0,
        Seq::empty(),
        Seq::<AddressInfoModel>::empty(),
    );
}

/// Whether the addresses are pairwise distinct.
pub open spec fn distinct_seqs(s: Seq<Seq<char>>) -> bool {
    forall|i: int, j: int| 0 <= i < j < s.len() ==> #[trigger] s[i] != #[trigger] s[j]
}

/// Whether the addresses never decrease.
pub open spec fn le_sorted(s: Seq<Seq<char>>) -> bool {
    forall|i: int, j: int|
        0 <= i < j < s.len() ==> text::lex_le(#[trigger] s[i], #[trigger] s[j])
}

/// Insertion adds exactly the inserted element to the members.
proof fn lemma_insert_lex_contains(s: Seq<Seq<char>>, x: Seq<char>, y: Seq<char>)
    ensures
        spec_insert_lex(s, x).contains(y) <==> (s.contains(y) || y == x),
    decreases s.len(),
{
    let r = spec_insert_lex(s, x);
    if s.len() == 0 {
        if y == x {
            assert(r[0] == y);
            assert(r.contains(y));
        }
        if r.contains(y) {
            let i = choose|i: int| 0 <= i < r.len() && r[i] == y;
            assert(y == x);
        }
    } else if text::lex_lt(x, s[0]) {
        if y == x {
            assert(r[0] == y);
            assert(r.contains(y));
        }
        if s.contains(y) {
            let i = choose|i: int| 0 <= i < s.len() && s[i] == y;
            assert(r[i + 1] == y);
            assert(r.contains(y));
        }
        if r.contains(y) {
            let i = choose|i: int| 0 <= i < r.len() && r[i] == y;
            if i == 0 {
                assert(y == x);
            } else {
                assert(s[i - 1] == y);
                assert(s.contains(y));
            }
        }
    } else {
        lemma_insert_lex_contains(s.drop_first(), x, y);
        let rr = spec_insert_lex(s.drop_first(), x);
        if y == x || s.contains(y) {
            if y == x {
                let i = choose|i: int| 0 <= i < rr.len() && rr[i] == y;
                assert(r[i + 1] == y);
            } else {
                let i = choose|i: int| 0 <= i < s.len() && s[i] == y;
                if i == 0 {
                    assert(r[0] == y);
                } else {
                    assert(s.drop_first()[i - 1] == y);
                    assert(s.drop_first().contains(y));
                    let k = choose|k: int| 0 <= k < rr.len() && rr[k] == y;
                    assert(r[k + 1] == y);
                }
            }
            assert(r.contains(y));
        }
        if r.contains(y) {
            let i = choose|i: int| 0 <= i < r.len() && r[i] == y;
            if i == 0 {
                assert(s[0] == y);
                assert(s.contains(y));
            } else {
                assert(rr[i - 1] == y);
                assert(rr.contains(y));
                if y != x {
                    let k = choose|k: int| 0 <= k < s.drop_first().len() && s.drop_first()[k] == y;
                    assert(s[k + 1] == y);
                    assert(s.contains(y));
                }
            }
        }
    }
}

/// Sorting keeps exactly the members.
proof fn lemma_sort_lex_contains(s: Seq<Seq<char>>, y: Seq<char>)
    ensures
        spec_sort_lex(s).contains(y) <==> s.contains(y),
    decreases s.len(),
{
    if s.len() > 0 {
        lemma_sort_lex_contains(s.drop_last(), y);
        lemma_insert_lex_contains(spec_sort_lex(s.drop_last()), s.last(), y);
        if s.contains(y) {
            let i = choose|i: int| 0 <= i < s.len() && s[i] == y;
            if i < s.len() - 1 {
                assert(s.drop_last()[i] == y);
                assert(s.drop_last().contains(y));
            }
        }
        if s.drop_last().contains(y) {
            let i = choose|i: int| 0 <= i < s.drop_last().len() && s.drop_last()[i] == y;
            assert(s[i] == y);
            assert(s.contains(y));
        }
        if y == s.last() {
            assert(s.contains(y));
        }
    }
}

/// Insertion into a non-decreasing sequence keeps it non-decreasing.
proof fn lemma_insert_lex_sorted(s: Seq<Seq<char>>, x: Seq<char>)
    requires
        le_sorted(s),
    ensures
        le_sorted(spec_insert_lex(s, x)),
    decreases s.len(),
{
    let r = spec_insert_lex(s, x);
    if s.len() == 0 {
    } else if text::lex_lt(x, s[0]) {
        assert forall|i: int, j: int| 0 <= i < j < r.len() implies text::lex_le(
            #[trigger] r[i],
            #[trigger] r[j],
        ) by {
            if i == 0 {
                if j == 1 {
                } else {
                    assert(text::lex_le(s[0], s[j - 1]));
                    if s[0] == s[j - 1] {
                    } else {
                        text::lemma_lex_lt_trans(x, s[0], s[j - 1]);
                    }
                }
            } else {
                assert(r[i] == s[i - 1] && r[j] == s[j - 1]);
            }
        }
    } else {
        text::lemma_lex_total(x, s[0]);
        assert(forall|i: int, j: int|
            0 <= i < j < s.drop_first().len() ==> text::lex_le(
                #[trigger] s.drop_first()[i],
                #[trigger] s.drop_first()[j],
            ));
        lemma_insert_lex_sorted(s.drop_first(), x);
        let rr = spec_insert_lex(s.drop_first(), x);
        assert forall|i: int, j: int| 0 <= i < j < r.len() implies text::lex_le(
            #[trigger] r[i],
            #[trigger] r[j],
        ) by {
            if i == 0 {
                assert(r[0] == s[0]);
                assert(rr[j - 1] == r[j]);
                assert(rr.contains(rr[j - 1]));
                lemma_insert_lex_contains(s.drop_first(), x, rr[j - 1]);
                if rr[j - 1] == x {
                    assert(text::lex_le(s[0], x));
                } else {
                    let k = choose|k: int|
                        0 <= k < s.drop_first().len() && s.drop_first()[k] == rr[j - 1];
                    assert(s[k + 1] == rr[j - 1]);
                    assert(text::lex_le(s[0], s[k + 1]));
                }
            } else {
                assert(r[i] == rr[i - 1] && r[j] == rr[j - 1]);
            }
        }
    }
}

/// Insertion of a fresh element keeps the addresses pairwise distinct.
proof fn lemma_insert_lex_distinct(s: Seq<Seq<char>>, x: Seq<char>)
    requires
        distinct_seqs(s),
        !s.contains(x),
    ensures
        distinct_seqs(spec_insert_lex(s, x)),
    decreases s.len(),
{
    let r = spec_insert_lex(s, x);
    if s.len() == 0 {
    } else if text::lex_lt(x, s[0]) {
        assert forall|i: int, j: int| 0 <= i < j < r.len() implies #[trigger] r[i] != #[trigger] r[j] by {
            if i == 0 {
                assert(r[j] == s[j - 1]);
                if r[0] == r[j] {
                    assert(s.contains(x)) by {
                        assert(s[j - 1] == x);
                    }
                }
            } else {
                assert(r[i] == s[i - 1] && r[j] == s[j - 1]);
            }
        }
    } else {
        assert(forall|i: int, j: int|
            0 <= i < j < s.drop_first().len() ==> #[trigger] s.drop_first()[i]
                != #[trigger] s.drop_first()[j]);
        assert(!s.drop_first().contains(x)) by {
            if s.drop_first().contains(x) {
                let k = choose|k: int| 0 <= k < s.drop_first().len() && s.drop_first()[k] == x;
                assert(s[k + 1] == x);
                assert(s.contains(x));
            }
        }
        lemma_insert_lex_distinct(s.drop_first(), x);
        let rr = spec_insert_lex(s.drop_first(), x);
        assert forall|i: int, j: int| 0 <= i < j < r.len() implies #[trigger] r[i] != #[trigger] r[j] by {
            if i == 0 {
                assert(r[0] == s[0]);
                assert(r[j] == rr[j - 1]);
                assert(rr.contains(rr[j - 1]));
                lemma_insert_lex_contains(s.drop_first(), x, rr[j - 1]);
                if r[0] == r[j] {
                    if rr[j - 1] == x {
                        assert(s.contains(x)) by {
                            assert(s[0] == x);
                        }
                    } else {
                        let k = choose|k: int|
                            0 <= k < s.drop_first().len() && s.drop_first()[k] == rr[j - 1];
                        assert(s[k + 1] == s[0]);
                    }
                }
            } else {
                assert(r[i] == rr[i - 1] && r[j] == rr[j - 1]);
            }
        }
    }
}

/// Sorting pairwise-distinct addresses yields a strictly sorted sequence
/// with the same members.
pub proof fn lemma_sort_lex_strictly_sorted(s: Seq<Seq<char>>)
    requires
        distinct_seqs(s),
    ensures
        targets_sorted(spec_sort_lex(s)),
        forall|y: Seq<char>| spec_sort_lex(s).contains(y) <==> s.contains(y),
    decreases s.len(),
{
    assert forall|y: Seq<char>| spec_sort_lex(s).contains(y) <==> s.contains(y) by {
        lemma_sort_lex_contains(s, y);
    }
    if s.len() == 0 {
    } else {
        assert(forall|i: int, j: int|
            0 <= i < j < s.drop_last().len() ==> #[trigger] s.drop_last()[i]
                != #[trigger] s.drop_last()[j]);
        lemma_sort_lex_strictly_sorted(s.drop_last());
        let sorted0 = spec_sort_lex(s.drop_last());
        assert(le_sorted(sorted0)) by {
            assert(forall|i: int, j: int|
                0 <= i < j < sorted0.len() ==> text::lex_le(
                    #[trigger] sorted0[i],
                    #[trigger] sorted0[j],
                ));
        }
        lemma_insert_lex_sorted(sorted0, s.last());
        assert(!sorted0.contains(s.last())) by {
            lemma_sort_lex_contains(s.drop_last(), s.last());
            if s.drop_last().contains(s.last()) {
                let k = choose|k: int| 0 <= k < s.drop_last().len() && s.drop_last()[k] == s.last();
                assert(s[k] == s[s.len() - 1]);
            }
        }
        assert(distinct_seqs(sorted0)) by {
            assert forall|i: int, j: int| 0 <= i < j < sorted0.len() implies #[trigger] sorted0[i]
                != #[trigger] sorted0[j] by {
                if sorted0[i] == sorted0[j] {
                    assert(text::lex_le(sorted0[i], sorted0[j]));
                    assert(text::lex_lt(sorted0[i], sorted0[j]));
                    text::lemma_lex_irrefl(sorted0[i]);
                }
            }
        }
        lemma_insert_lex_distinct(sorted0, s.last());
        let r = spec_sort_lex(s);
        assert forall|i: int, j: int| 0 <= i < j < r.len() implies text::lex_lt(
            #[trigger] r[i],
            #[trigger] r[j],
        ) by {
            assert(text::lex_le(r[i], r[j]));
            assert(r[i] != r[j]);
        }
    }
}

/// Law: exact-match resolution, from the resolver's own entry point. When
/// the normalized addresses are pairwise distinct, the listing's
/// instruction-line runtime addresses never decrease, and the resolve
/// reports no error, the result holds an entry for a normalized address
/// exactly when some instruction line matches it.
pub proof fn lemma_resolve_finds_exact_matches(
    listing: Seq<char>,
    base_str: Seq<char>,
    addrs: Seq<Seq<char>>,
)
    requires
        distinct_seqs(norm_all(addrs)),
        lines_sorted(
            text::spec_split_lines(listing, 0),
            text::hex_val(text::spec_strip_0x(base_str)) as u64,
        ),
        spec_resolve(listing, base_str, addrs) is Ok,
    ensures
        ({
            let base = text::hex_val(text::spec_strip_0x(base_str)) as u64;
            let lines = text::spec_split_lines(listing, 0);
            let res = spec_resolve(listing, base_str, addrs)->Ok_0;
            forall|k: int|
                0 <= k < addrs.len() ==> (contains_addr(res, #[trigger] norm_all(addrs)[k]) <==> hit_in(
                    lines,
                    base,
                    norm_all(addrs)[k],
                    0,
                    lines.len() as int,
                ))
        }),
{
    let base = text::hex_val(text::spec_strip_0x(base_str)) as u64;
    let lines = text::spec_split_lines(listing, 0);
    let targets = spec_sort_lex(norm_all(addrs));
    lemma_sort_lex_strictly_sorted(norm_all(addrs));
    lemma_resolve_exact_matches(listing, targets, base);
    let res = spec_resolve(listing, base_str, addrs)->Ok_0;
    assert forall|k: int| 0 <= k < addrs.len() implies (contains_addr(
        res,
        #[trigger] norm_all(addrs)[k],
    ) <==> hit_in(lines, base, norm_all(addrs)[k], 0, lines.len() as int)) by {
        let t = norm_all(addrs)[k];
        assert(norm_all(addrs).contains(t));
        assert(targets.contains(t));
        let ti = choose|ti: int| 0 <= ti < targets.len() && targets[ti] == t;
        assert(contains_addr(res, targets[ti]) <==> hit_in(
            lines,
            base,
            targets[ti],
            0,
            lines.len() as int,
        ));
    }
}

} // verus!
