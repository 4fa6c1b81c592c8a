//! Control policies received from the RIC: per-slice scheduling policies and per-slice
//! RBG allocations, and the text of the configuration files they are written to.
use vstd::prelude::*;
use vstd::string::{StrSliceExecFns, StringExecFns};
use crate::number::{decimal, lemma_decimal, parse_unsigned, parse_unsigned_text, push_decimal};
use crate::text::{lemma_split_nonempty, lemma_split_two, push_char, split, split_at_char, views};

verus! {

/// Number of slices that the scheduling file always lists.
pub const SLICE_NUM: u8 = 10;

/// Number of resource block groups in a slicing mask.
pub const RBG_NUM: u8 = 25;

/// Directory of the configuration files.
pub const CONFIG_PATH: &'static str = "/root/radio_code/scope_config/slicing/";

/// Name of the scheduling policy file.
pub const SCHEDULING_FILENAME: &'static str = "slice_scheduling_policy.txt";

/// Prefix of the name of each slice's allocation mask file.
pub const SLICING_BASE_FILENAME: &'static str = "slice_allocation_mask_tenant_";

/// First lines of the scheduling policy file.
pub const SCHEDULING_FILE_HEADER: &'static str = "# slice::scheduling policy\n# 0 = default srsLTE round-robin\n# 1 = waterfilling\n# 2 = proportional\n";

/// Policy given to the slices that a scheduling message leaves out.
pub const DEFAULT_POLICY: &'static str = "0";

// ---------------------------------------------------------------------------
// Control messages
// ---------------------------------------------------------------------------

/// The scheduling line and the slicing line of a control message: the message is one
/// line (scheduling only) or two lines separated by a line feed; with more it is refused.
pub open spec fn control_parts(input: Seq<char>) -> Option<(Seq<char>, Seq<char>)> {
    let f = split(input, '\n');
    if f.len() == 1 {
        Some((f[0], Seq::<char>::empty()))
    } else if f.len() == 2 {
        Some((f[0], f[1]))
    } else {
        None
    }
}

/// Divides a control message into its scheduling part and its slicing part; `None`
/// when the message has more than two lines.
pub fn split_control_policies(input: &str) -> (parts: Option<(String, String)>)
    ensures
        match control_parts(input@) {
            Some((s, t)) => parts matches Some((a, b)) && a@ == s && b@ == t,
            None => parts is None,
        },
{
    let mut f = split_at_char(input, '\n');
    proof {
        lemma_split_nonempty(input@, '\n');
    }
    if f.len() == 1 {
        let s = f.pop().unwrap();
        Some((s, String::new()))
    } else if f.len() == 2 {
        let t = f.pop().unwrap();
        let s = f.pop().unwrap();
        Some((s, t))
    } else {
        None
    }
}

/// A scheduling line and a slicing line joined by a line feed are read back as the two
/// parts; a message of one line is a scheduling part alone; a message that starts with a
/// line feed is a slicing part alone.
pub proof fn law_control_message(s: Seq<char>, t: Seq<char>)
    requires
        !s.contains('\n'),
        !t.contains('\n'),
    ensures
        control_parts(s + seq!['\n'] + t) == Some((s, t)),
        control_parts(s) == Some((s, Seq::<char>::empty())),
{
    lemma_split_two(s, t, '\n');
}

// ---------------------------------------------------------------------------
// Scheduling policies
// ---------------------------------------------------------------------------

/// The number of slices listed in the scheduling file: all given, and at least
/// `SLICE_NUM`.
pub open spec fn scheduling_count(policies: Seq<Seq<char>>) -> nat {
    if policies.len() < SLICE_NUM as nat {
        SLICE_NUM as nat
    } else {
        policies.len()
    }
}

/// The policy of slice `i`: the one given, or the default for a slice left out.
pub open spec fn slice_policy(policies: Seq<Seq<char>>, i: int) -> Seq<char> {
    if i < policies.len() {
        policies[i]
    } else {
        DEFAULT_POLICY@
    }
}

/// The line of slice `i`: its number, "::", and its policy.
pub open spec fn scheduling_line(policies: Seq<Seq<char>>, i: nat) -> Seq<char> {
    decimal(i) + "::"@ + slice_policy(policies, i as int) + "\n"@
}

/// The lines of slices `0..n`.
pub open spec fn scheduling_lines(policies: Seq<Seq<char>>, n: nat) -> Seq<char>
    decreases n,
{
    if n == 0 {
        Seq::<char>::empty()
    } else {
        scheduling_lines(policies, (n - 1) as nat) + scheduling_line(policies, (n - 1) as nat)
    }
}

/// The scheduling policy file for a comma-separated list of policies, one per slice.
pub open spec fn scheduling_file(input: Seq<char>) -> Seq<char> {
    let policies = split(input, ',');
    SCHEDULING_FILE_HEADER@ + scheduling_lines(policies, scheduling_count(policies))
}

/// The text of the scheduling policy file for `input_policy`, a comma-separated list
/// of scheduling policies, one for each slice (e.g. "2,0,1").
pub fn scheduling_policy_text(input_policy: &str) -> (text: String)
    ensures
        text@ == scheduling_file(input_policy@),
{
    let mut policies = split_at_char(input_policy, ',');
    let ghost given = views(policies@);
    let mut policies_num: usize = SLICE_NUM as usize;
    if policies.len() < SLICE_NUM as usize {
        while policies.len() < SLICE_NUM as usize
            invariant
                views(policies@).len() <= SLICE_NUM,
                given.len() <= views(policies@).len(),
                forall|i: int|
                    0 <= i < views(policies@).len() ==> #[trigger] views(policies@)[i]
                        == slice_policy(given, i),
            decreases SLICE_NUM as usize - policies.len(),
        {
            let ghost before = views(policies@);
            policies.push(String::from_str(DEFAULT_POLICY));
            assert(views(policies@) == before.push(DEFAULT_POLICY@));
            assert forall|i: int|
                0 <= i < views(policies@).len() implies #[trigger] views(policies@)[i]
                == slice_policy(given, i) by {
                if i < before.len() {
                    assert(views(policies@)[i] == before[i]);
                }
            }
        }
    } else {
        policies_num = policies.len();
    }
    assert(policies_num == scheduling_count(given));
    let mut text = String::from_str(SCHEDULING_FILE_HEADER);
    let mut i: usize = 0;
    while i < policies_num
        invariant
            policies_num <= policies.len(),
            policies_num == scheduling_count(given),
            forall|j: int|
                0 <= j < policies_num ==> #[trigger] views(policies@)[j] == slice_policy(given, j),
            i <= policies_num,
            text@ == SCHEDULING_FILE_HEADER@ + scheduling_lines(given, i as nat),
        decreases policies_num - i,
    {
        let ghost before = text@;
        push_decimal(&mut text, i as u128);
        text.append("::");
        text.append(policies[i].as_str());
        text.append("\n");
        assert(views(policies@)[i as int] == policies@[i as int]@);
        assert(text@ =~= before + scheduling_line(given, i as nat));
        i = i + 1;
    }
    text
}

// ---------------------------------------------------------------------------
// Slicing policies
// ---------------------------------------------------------------------------

/// The RBG count of a slicing field, read as a `u8`.
pub open spec fn rbg_of(field: Seq<char>) -> Option<int> {
    parse_unsigned(field, u8::MAX as int)
}

/// The number of leading fields that are RBG counts: processing stops at the first
/// field that is not.
pub open spec fn counts_read(f: Seq<Seq<char>>) -> nat
    decreases f.len(),
{
    if f.len() == 0 {
        0
    } else if counts_read(f.drop_last()) == f.len() - 1 && rbg_of(f.last()) is Some {
        f.len()
    } else {
        counts_read(f.drop_last())
    }
}

/// The first RBG of slice `i`: the RBGs of the slices before it, counted in order.
pub open spec fn rbg_offset(f: Seq<Seq<char>>, i: int) -> int
    decreases i,
{
    if i <= 0 {
        0
    } else {
        rbg_offset(f, i - 1) + rbg_of(f[i - 1]).unwrap()
    }
}

/// Position `p` of a mask: '1' on the slice's RBGs, '0' elsewhere.
pub open spec fn mask_char(first: int, count: int, p: int) -> char {
    if first <= p < first + count {
        '1'
    } else {
        '0'
    }
}

/// The allocation mask of a slice whose RBGs start at `first` and number `count`:
/// `RBG_NUM` characters, '1' on the slice's RBGs and '0' elsewhere.
pub open spec fn rbg_mask(first: int, count: int) -> Seq<char> {
    Seq::new(RBG_NUM as nat, |p: int| mask_char(first, count, p))
}

/// The masks written for the slicing fields `f`, one per leading RBG count.
pub open spec fn slicing_masks(f: Seq<Seq<char>>) -> Seq<Seq<char>> {
    Seq::new(counts_read(f), |i: int| rbg_mask(rbg_offset(f, i), rbg_of(f[i]).unwrap()))
}

/// The RBG counts that are read add up, at every step, to at most `u8::MAX`.
pub open spec fn slicing_fits(f: Seq<Seq<char>>) -> bool {
    forall|i: int| 0 < i <= counts_read(f) ==> #[trigger] rbg_offset(f, i) <= u8::MAX
}

proof fn lemma_counts_read(f: Seq<Seq<char>>)
    ensures
        counts_read(f) <= f.len(),
        forall|i: int| 0 <= i < counts_read(f) ==> #[trigger] rbg_of(f[i]) is Some,
        counts_read(f) < f.len() ==> rbg_of(f[counts_read(f) as int]) is None,
    decreases f.len(),
{
    if f.len() > 0 {
        let p = f.drop_last();
        lemma_counts_read(p);
        assert forall|i: int| 0 <= i < counts_read(f) implies #[trigger] rbg_of(f[i]) is Some by {
            if i < p.len() {
                assert(f[i] == p[i]);
            }
        }
        if counts_read(p) < p.len() {
            assert(f[counts_read(p) as int] == p[counts_read(p) as int]);
        }
    }
}

proof fn lemma_rbg_offset_prefix(f: Seq<Seq<char>>, g: Seq<Seq<char>>, i: int)
    requires
        0 <= i <= g.len() <= f.len(),
        forall|j: int| 0 <= j < g.len() ==> f[j] == g[j],
    ensures
        rbg_offset(f, i) == rbg_offset(g, i),
    decreases i,
{
    if i > 0 {
        lemma_rbg_offset_prefix(f, g, i - 1);
    }
}

/// With the first `k` fields read, the RBG offsets grow from slice to slice.
proof fn lemma_rbg_offset_monotone(f: Seq<Seq<char>>, i: int, j: int)
    requires
        0 <= i <= j <= counts_read(f),
    ensures
        rbg_offset(f, i) <= rbg_offset(f, j),
    decreases j - i,
{
    lemma_counts_read(f);
    if i < j {
        lemma_rbg_offset_monotone(f, i, j - 1);
        assert(rbg_of(f[j - 1]) is Some);
        assert(rbg_of(f[j - 1]).unwrap() >= 0);
    }
}

/// Every mask has `RBG_NUM` characters, each '0' or '1', and no RBG is given to two
/// slices: the masks of two different slices never both hold '1' at one position.
pub proof fn law_slicing_masks_disjoint(f: Seq<Seq<char>>)
    ensures
        forall|i: int|
            0 <= i < slicing_masks(f).len() ==> (#[trigger] slicing_masks(f)[i]).len() == RBG_NUM,
        forall|i: int, p: int|
            0 <= i < slicing_masks(f).len() && 0 <= p < RBG_NUM ==> (#[trigger] slicing_masks(
                f,
            )[i][p] == '0' || slicing_masks(f)[i][p] == '1'),
        forall|i: int, j: int, p: int|
            0 <= i < j < slicing_masks(f).len() && 0 <= p < RBG_NUM && #[trigger] slicing_masks(
                f,
            )[i][p] == '1' ==> #[trigger] slicing_masks(f)[j][p] == '0',
{
    lemma_counts_read(f);
    assert forall|i: int, j: int, p: int|
        0 <= i < j < slicing_masks(f).len() && 0 <= p < RBG_NUM && #[trigger] slicing_masks(
            f,
        )[i][p] == '1' implies #[trigger] slicing_masks(f)[j][p] == '0' by {
        lemma_rbg_offset_monotone(f, i + 1, j);
        assert(rbg_offset(f, i + 1) == rbg_offset(f, i) + rbg_of(f[i]).unwrap());
    }
}

/// Every field that `str::parse` reads as a `u8` (0 included) is an RBG count: masks
/// are made for the leading fields that parse, and processing stops only at a field that
/// does not. Slice `i`'s RBGs start right after those of the slices before it, and its
/// mask holds '1' exactly on its RBGs that fall within the first `RBG_NUM`.
pub proof fn law_slicing_counts(f: Seq<Seq<char>>)
    ensures
        slicing_masks(f).len() <= f.len(),
        forall|i: int|
            0 <= i < slicing_masks(f).len() ==> (#[trigger] parse_unsigned(f[i], u8::MAX as int)) is Some,
        slicing_masks(f).len() < f.len() ==> parse_unsigned(
            f[slicing_masks(f).len() as int],
            u8::MAX as int,
        ) is None,
        rbg_offset(f, 0) == 0,
        forall|i: int|
            0 <= i < slicing_masks(f).len() ==> #[trigger] rbg_offset(f, i + 1) == rbg_offset(f, i)
                + parse_unsigned(f[i], u8::MAX as int).unwrap(),
        forall|i: int, p: int|
            0 <= i < slicing_masks(f).len() && 0 <= p < RBG_NUM ==> (#[trigger] slicing_masks(f)[i][p]
                == '1' <==> rbg_offset(f, i) <= p < rbg_offset(f, i) + parse_unsigned(
                f[i],
                u8::MAX as int,
            ).unwrap()),
{
    lemma_counts_read(f);
    assert forall|i: int|
        0 <= i < slicing_masks(f).len() implies (#[trigger] parse_unsigned(f[i], u8::MAX as int)) is Some by {
        assert(rbg_of(f[i]) is Some);
    }
}

/// The allocation mask of a slice whose RBGs start at `first` and number `count`,
/// built as "0" times `first`, then "1" times `count`, padded with "0" or cut to
/// `RBG_NUM` characters.
fn make_mask(first: u8, count: u8) -> (mask: String)
    ensures
        mask@ == rbg_mask(first as int, count as int),
{
    let mut mask = String::new();
    let mut len: usize = 0;
    while len < first as usize
        invariant
            len <= first,
            mask@.len() == len,
            forall|p: int| 0 <= p < len ==> #[trigger] mask@[p] == mask_char(first as int, count as int, p),
        decreases first - len,
    {
        let ghost before = mask@;
        push_char(&mut mask, '0');
        assert(mask_char(first as int, count as int, len as int) == '0');
        assert forall|p: int| 0 <= p < len + 1 implies #[trigger] mask@[p] == mask_char(first as int, count as int, p) by {
            if p < len {
                assert(mask@[p] == before[p]);
            }
        }
        len = len + 1;
    }
    while len < first as usize + count as usize
        invariant
            first <= len <= first + count,
            mask@.len() == len,
            forall|p: int| 0 <= p < len ==> #[trigger] mask@[p] == mask_char(first as int, count as int, p),
        decreases first + count - len,
    {
        let ghost before = mask@;
        push_char(&mut mask, '1');
        assert(mask_char(first as int, count as int, len as int) == '1');
        assert forall|p: int| 0 <= p < len + 1 implies #[trigger] mask@[p] == mask_char(first as int, count as int, p) by {
            if p < len {
                assert(mask@[p] == before[p]);
            }
        }
        len = len + 1;
    }
    if len < RBG_NUM as usize {
        while len < RBG_NUM as usize
            invariant
                first + count <= len <= RBG_NUM,
                mask@.len() == len,
                forall|p: int| 0 <= p < len ==> #[trigger] mask@[p] == mask_char(first as int, count as int, p),
            decreases RBG_NUM - len,
        {
            let ghost before = mask@;
        push_char(&mut mask, '0');
        assert(mask_char(first as int, count as int, len as int) == '0');
        assert forall|p: int| 0 <= p < len + 1 implies #[trigger] mask@[p] == mask_char(first as int, count as int, p) by {
            if p < len {
                assert(mask@[p] == before[p]);
            }
        }
            len = len + 1;
        }
        assert(mask@ =~= rbg_mask(first as int, count as int));
        mask
    } else {
        let cut = String::from_str(mask.as_str().substring_char(0, RBG_NUM as usize));
        assert(cut@ =~= rbg_mask(first as int, count as int));
        cut
    }
}

/// The allocation masks for `input_policy`, a comma-separated list of RBG counts, one
/// for each slice (e.g. "5,10,2"): mask `i` goes to slice `i`, whose RBGs follow those of
/// the slices before it. Processing stops at the first count that is not a `u8`; the
/// flag says whether that happened.
pub fn slicing_policy_masks(input_policy: &str) -> (result: (Vec<String>, bool))
    requires
        slicing_fits(split(input_policy@, ',')),
    ensures
        views(result.0@) == slicing_masks(split(input_policy@, ',')),
        result.1 == (counts_read(split(input_policy@, ',')) < split(input_policy@, ',').len()),
{
    let fields = split_at_char(input_policy, ',');
    let ghost f = views(fields@);
    proof {
        lemma_counts_read(f);
    }
    let mut masks: Vec<String> = Vec::new();
    let mut prev_idx: u8 = 0;
    let mut i: usize = 0;
    while i < fields.len()
        invariant
            f == views(fields@),
            f == split(input_policy@, ','),
            slicing_fits(f),
            counts_read(f) <= f.len(),
            forall|j: int| 0 <= j < counts_read(f) ==> #[trigger] rbg_of(f[j]) is Some,
            counts_read(f) < f.len() ==> rbg_of(f[counts_read(f) as int]) is None,
            i <= counts_read(f),
            prev_idx == rbg_offset(f, i as int),
            views(masks@) == slicing_masks(f).take(i as int),
        decreases fields.len() - i,
    {
        match parse_unsigned_text(fields[i].as_str(), u8::MAX as u128) {
            Some(v) => {
                let slice_rbg = v as u8;
                assert(fields@[i as int]@ == f[i as int]);
                assert(i < counts_read(f));
                assert(rbg_offset(f, i + 1) == rbg_offset(f, i as int) + slice_rbg);
                let mask = make_mask(prev_idx, slice_rbg);
                prev_idx = prev_idx + slice_rbg;
                let ghost before = views(masks@);
                masks.push(mask);
                assert(views(masks@) == before.push(mask@));
                i = i + 1;
                assert(views(masks@) =~= slicing_masks(f).take(i as int));
            },
            None => {
                assert(fields@[i as int]@ == f[i as int]);
                assert(i == counts_read(f));
                assert(slicing_masks(f).take(i as int) =~= slicing_masks(f));
                return (masks, true);
            },
        }
    }
    assert(i == counts_read(f));
    assert(slicing_masks(f).take(i as int) =~= slicing_masks(f));
    (masks, false)
}

/// Whether `slicing_policy_masks` accepts `input_policy`: the RBG counts that are read
/// never add up to more than `u8::MAX`.
pub fn slicing_policy_fits(input_policy: &str) -> (b: bool)
    ensures
        b == slicing_fits(split(input_policy@, ',')),
{
    let fields = split_at_char(input_policy, ',');
    let ghost f = views(fields@);
    proof {
        lemma_counts_read(f);
    }
    let mut total: u128 = 0;
    let mut i: usize = 0;
    while i < fields.len()
        invariant
            f == views(fields@),
            f == split(input_policy@, ','),
            counts_read(f) <= f.len(),
            forall|j: int| 0 <= j < counts_read(f) ==> #[trigger] rbg_of(f[j]) is Some,
            counts_read(f) < f.len() ==> rbg_of(f[counts_read(f) as int]) is None,
            i <= counts_read(f),
            total == rbg_offset(f, i as int),
            total <= u8::MAX,
            forall|j: int| 0 < j <= i ==> #[trigger] rbg_offset(f, j) <= u8::MAX,
        decreases fields.len() - i,
    {
        assert(fields@[i as int]@ == f[i as int]);
        match parse_unsigned_text(fields[i].as_str(), u8::MAX as u128) {
            Some(v) => {
                assert(i < counts_read(f));
                assert(rbg_offset(f, i + 1) == rbg_offset(f, i as int) + v);
                if total + v > u8::MAX as u128 {
                    return false;
                }
                total = total + v;
                i = i + 1;
            },
            None => {
                assert(i == counts_read(f));
                return true;
            },
        }
    }
    assert(i == counts_read(f));
    true
}

// ---------------------------------------------------------------------------
// Policy files
// ---------------------------------------------------------------------------

/// The name of the allocation mask file of slice `slice_idx`.
pub open spec fn slicing_filename(slice_idx: nat) -> Seq<char> {
    SLICING_BASE_FILENAME@ + decimal(slice_idx) + ".txt"@
}

/// The name of the allocation mask file of slice `slice_idx`.
pub fn slicing_policy_filename(slice_idx: usize) -> (name: String)
    ensures
        name@ == slicing_filename(slice_idx as nat),
{
    let mut name = String::from_str(SLICING_BASE_FILENAME);
    push_decimal(&mut name, slice_idx as u128);
    name.append(".txt");
    name
}

/// The path of the file `filename` in the directory `file_path`.
pub fn policy_file_path(file_path: &str, filename: &str) -> (path: String)
    ensures
        path@ == file_path@ + "/"@ + filename@,
{
    let mut path = String::from_str(file_path);
    path.append("/");
    path.append(filename);
    path
}

/// A policy file is rewritten only when the policies differ from the ones it holds.
pub fn policy_needs_write(to_write: &str, running_policies: &str) -> (b: bool)
    ensures
        b == (to_write@ != running_policies@),
{
    let a = String::from_str(to_write);
    let b = String::from_str(running_policies);
    !(a == b)
}

// ---------------------------------------------------------------------------
// The files a control message writes
// ---------------------------------------------------------------------------

/// The names and contents of a sequence of strings' pairs.
pub open spec fn pair_views(v: Seq<(String, String)>) -> Seq<(Seq<char>, Seq<char>)> {
    v.map_values(|p: (String, String)| (p.0@, p.1@))
}

/// The scheduling file written for a scheduling part: none for an empty part.
pub open spec fn scheduling_writes(s: Seq<char>) -> Seq<(Seq<char>, Seq<char>)> {
    if s.len() > 0 {
        seq![(SCHEDULING_FILENAME@, scheduling_file(s))]
    } else {
        Seq::empty()
    }
}

/// The mask files written for a slicing part, slice by slice: none for an empty part.
pub open spec fn slicing_writes(t: Seq<char>) -> Seq<(Seq<char>, Seq<char>)> {
    if t.len() > 0 {
        let m = slicing_masks(split(t, ','));
        Seq::new(m.len(), |i: int| (slicing_filename(i as nat), m[i]))
    } else {
        Seq::empty()
    }
}

/// The files that a control message writes in the configuration directory, in order
/// (names and contents): the scheduling file, then the slices' mask files; `None` for a
/// message of more than two lines.
pub open spec fn policy_writes(input: Seq<char>) -> Option<Seq<(Seq<char>, Seq<char>)>> {
    match control_parts(input) {
        Some((s, t)) => Some(scheduling_writes(s) + slicing_writes(t)),
        None => None,
    }
}

/// Processing of the slicing part stopped at a count that is not a `u8`.
pub open spec fn slicing_stops(input: Seq<char>) -> bool {
    match control_parts(input) {
        Some((_, t)) => t.len() > 0 && counts_read(split(t, ',')) < split(t, ',').len(),
        None => false,
    }
}

/// The slicing part of the message, if any, fits `slicing_policy_masks`.
pub open spec fn control_fits(input: Seq<char>) -> bool {
    match control_parts(input) {
        Some((_, t)) => t.len() > 0 ==> slicing_fits(split(t, ',')),
        None => true,
    }
}

/// Whether `control_policy_writes` accepts `input`.
pub fn control_policies_fit(input: &str) -> (b: bool)
    ensures
        b == control_fits(input@),
{
    match split_control_policies(input) {
        Some((_, slicing)) => {
            if slicing.unicode_len() > 0 {
                slicing_policy_fits(slicing.as_str())
            } else {
                true
            }
        },
        None => true,
    }
}

/// The files that the control message `input` writes, with their contents, in order,
/// and whether processing of the slicing part stopped at a bad count; `None` when the
/// message has more than two lines. An empty scheduling or slicing part writes nothing.
pub fn control_policy_writes(input: &str) -> (r: Option<(Vec<(String, String)>, bool)>)
    requires
        control_fits(input@),
    ensures
        match policy_writes(input@) {
            Some(w) => r matches Some((v, stopped)) && pair_views(v@) == w && stopped
                == slicing_stops(input@),
            None => r is None,
        },
{
    let (scheduling, slicing) = match split_control_policies(input) {
        Some(parts) => parts,
        None => return None,
    };
    let mut writes: Vec<(String, String)> = Vec::new();
    if scheduling.unicode_len() > 0 {
        let text = scheduling_policy_text(scheduling.as_str());
        writes.push((String::from_str(SCHEDULING_FILENAME), text));
    }
    assert(pair_views(writes@) =~= scheduling_writes(scheduling@));
    let ghost first = pair_views(writes@);
    let mut stopped = false;
    if slicing.unicode_len() > 0 {
        let (masks, s) = slicing_policy_masks(slicing.as_str());
        stopped = s;
        let ghost m = slicing_masks(split(slicing@, ','));
        let mut i: usize = 0;
        while i < masks.len()
            invariant
                views(masks@) == m,
                i <= masks.len(),
                pair_views(writes@) == first + Seq::new(
                    i as nat,
                    |j: int| (slicing_filename(j as nat), m[j]),
                ),
            decreases masks.len() - i,
        {
            let name = slicing_policy_filename(i);
            let mask = masks[i].clone();
            assert(mask@ == m[i as int]);
            let ghost before = pair_views(writes@);
            writes.push((name, mask));
            assert(pair_views(writes@) =~= before.push((slicing_filename(i as nat), m[i as int])));
            i = i + 1;
            assert(pair_views(writes@) =~= first + Seq::new(
                i as nat,
                |j: int| (slicing_filename(j as nat), m[j]),
            ));
        }
        assert(pair_views(writes@) =~= scheduling_writes(scheduling@) + slicing_writes(slicing@));
    } else {
        assert(pair_views(writes@) =~= scheduling_writes(scheduling@) + slicing_writes(slicing@));
    }
    Some((writes, stopped))
}

/// What a file holds before it is written: nothing when it does not exist yet (it is
/// created empty).
pub open spec fn running_content(files: Map<Seq<char>, Seq<char>>, name: Seq<char>) -> Seq<char> {
    if files.dom().contains(name) {
        files[name]
    } else {
        Seq::empty()
    }
}

/// The configuration directory, file name to content, after the writes are made in
/// order. A file whose running content already equals the new content is not rewritten,
/// which leaves it holding that content all the same.
pub open spec fn apply_writes(
    files: Map<Seq<char>, Seq<char>>,
    writes: Seq<(Seq<char>, Seq<char>)>,
) -> Map<Seq<char>, Seq<char>>
    decreases writes.len(),
{
    if writes.len() == 0 {
        files
    } else {
        apply_writes(files, writes.drop_last()).insert(writes.last().0, writes.last().1)
    }
}

/// No two writes name the same file.
pub open spec fn distinct_names(writes: Seq<(Seq<char>, Seq<char>)>) -> bool {
    forall|i: int, j: int|
        0 <= i < writes.len() && 0 <= j < writes.len() && i != j ==> #[trigger] writes[i].0
            != #[trigger] writes[j].0
}

proof fn lemma_last_write_wins(files: Map<Seq<char>, Seq<char>>, writes: Seq<(Seq<char>, Seq<char>)>)
    requires
        distinct_names(writes),
    ensures
        forall|i: int|
            0 <= i < writes.len() ==> #[trigger] running_content(apply_writes(files, writes), writes[i].0)
                == writes[i].1,
    decreases writes.len(),
{
    if writes.len() > 0 {
        let p = writes.drop_last();
        assert(distinct_names(p)) by {
            assert forall|i: int, j: int|
                0 <= i < p.len() && 0 <= j < p.len() && i != j implies #[trigger] p[i].0
                != #[trigger] p[j].0 by {
                assert(p[i] == writes[i] && p[j] == writes[j]);
            }
        }
        lemma_last_write_wins(files, p);
        assert forall|i: int|
            0 <= i < writes.len() implies #[trigger] running_content(apply_writes(files, writes), writes[i].0)
                == writes[i].1 by {
            if i < writes.len() - 1 {
                assert(p[i] == writes[i]);
                assert(writes[i].0 != writes[writes.len() - 1].0);
                assert(running_content(apply_writes(files, p), p[i].0) == p[i].1);
            }
        }
    }
}

proof fn lemma_rewrite_unchanged(
    files: Map<Seq<char>, Seq<char>>,
    writes: Seq<(Seq<char>, Seq<char>)>,
    k: int,
)
    requires
        0 <= k <= writes.len(),
        forall|i: int|
            0 <= i < writes.len() ==> #[trigger] running_content(files, writes[i].0) == writes[i].1
                && files.dom().contains(writes[i].0),
    ensures
        apply_writes(files, writes.take(k)) == files,
    decreases k,
{
    if k > 0 {
        lemma_rewrite_unchanged(files, writes, k - 1);
        assert(writes.take(k).drop_last() =~= writes.take(k - 1));
        assert(writes.take(k).last() == writes[k - 1]);
        assert(running_content(files, writes[k - 1].0) == writes[k - 1].1);
        assert(files.insert(writes[k - 1].0, writes[k - 1].1) =~= files);
    }
}

/// Making the same writes a second time changes nothing and rewrites no file: before
/// each write of the second round, the file already holds the content to be written.
pub proof fn law_writes_idempotent(files: Map<Seq<char>, Seq<char>>, writes: Seq<(Seq<char>, Seq<char>)>)
    requires
        distinct_names(writes),
    ensures
        apply_writes(apply_writes(files, writes), writes) == apply_writes(files, writes),
        forall|i: int|
            0 <= i < writes.len() ==> #[trigger] running_content(
                apply_writes(apply_writes(files, writes), writes.take(i)),
                writes[i].0,
            ) == writes[i].1,
{
    let after = apply_writes(files, writes);
    lemma_last_write_wins(files, writes);
    assert forall|i: int| 0 <= i < writes.len() implies #[trigger] running_content(after, writes[i].0)
        == writes[i].1 && after.dom().contains(writes[i].0) by {
        assert(running_content(after, writes[i].0) == writes[i].1);
        lemma_written_name_present(files, writes, i);
    }
    lemma_rewrite_unchanged(after, writes, writes.len() as int);
    assert(writes.take(writes.len() as int) =~= writes);
    assert forall|i: int| 0 <= i < writes.len() implies #[trigger] running_content(
        apply_writes(after, writes.take(i)),
        writes[i].0,
    ) == writes[i].1 by {
        lemma_rewrite_unchanged(after, writes, i);
    }
}

proof fn lemma_written_name_present(
    files: Map<Seq<char>, Seq<char>>,
    writes: Seq<(Seq<char>, Seq<char>)>,
    i: int,
)
    requires
        0 <= i < writes.len(),
    ensures
        apply_writes(files, writes).dom().contains(writes[i].0),
    decreases writes.len(),
{
    if i < writes.len() - 1 {
        lemma_written_name_present(files, writes.drop_last(), i);
        assert(writes.drop_last()[i] == writes[i]);
    }
}

proof fn lemma_slicing_filename_injective(i: nat, j: nat)
    requires
        slicing_filename(i) == slicing_filename(j),
    ensures
        i == j,
{
    let b = SLICING_BASE_FILENAME@;
    let t = ".txt"@;
    let a = slicing_filename(i);
    let c = slicing_filename(j);
    assert(a.len() == b.len() + decimal(i).len() + t.len());
    assert(c.len() == b.len() + decimal(j).len() + t.len());
    assert(decimal(i).len() == decimal(j).len());
    assert(a.subrange(b.len() as int, (b.len() + decimal(i).len()) as int) =~= decimal(i));
    assert(c.subrange(b.len() as int, (b.len() + decimal(j).len()) as int) =~= decimal(j));
    lemma_decimal(i);
    lemma_decimal(j);
}

proof fn lemma_scheduling_name_not_slicing(i: nat)
    ensures
        SCHEDULING_FILENAME@ != slicing_filename(i),
{
    reveal_strlit("slice_scheduling_policy.txt");
    reveal_strlit("slice_allocation_mask_tenant_");
    let a = slicing_filename(i);
    assert(a[6] == SLICING_BASE_FILENAME@[6]);
    assert(SCHEDULING_FILENAME@[6] != a[6]);
}

/// The files that a control message writes have distinct names.
pub proof fn lemma_policy_writes_distinct(input: Seq<char>)
    requires
        policy_writes(input) is Some,
    ensures
        distinct_names(policy_writes(input).unwrap()),
{
    let (s, t) = control_parts(input).unwrap();
    let a = scheduling_writes(s);
    let b = slicing_writes(t);
    let w = a + b;
    assert forall|i: int, j: int|
        0 <= i < w.len() && 0 <= j < w.len() && i != j implies #[trigger] w[i].0 != #[trigger] w[j].0 by {
        if i < a.len() && j >= a.len() {
            assert(w[j] == b[j - a.len()]);
            lemma_scheduling_name_not_slicing((j - a.len()) as nat);
        } else if j < a.len() && i >= a.len() {
            assert(w[i] == b[i - a.len()]);
            lemma_scheduling_name_not_slicing((i - a.len()) as nat);
        } else if i >= a.len() && j >= a.len() {
            assert(w[i] == b[i - a.len()]);
            assert(w[j] == b[j - a.len()]);
            if w[i].0 == w[j].0 {
                lemma_slicing_filename_injective((i - a.len()) as nat, (j - a.len()) as nat);
            }
        }
    }
}

/// Writing the same control message twice is the same as writing it once: the second
/// time every file already holds the content to be written, so none is rewritten.
pub proof fn law_control_policies_idempotent(input: Seq<char>, files: Map<Seq<char>, Seq<char>>)
    requires
        policy_writes(input) is Some,
    ensures
        ({
            let w = policy_writes(input).unwrap();
            let once = apply_writes(files, w);
            &&& apply_writes(once, w) == once
            &&& forall|i: int|
                0 <= i < w.len() ==> #[trigger] running_content(apply_writes(once, w.take(i)), w[i].0)
                    == w[i].1
        }),
{
    lemma_policy_writes_distinct(input);
    law_writes_idempotent(files, policy_writes(input).unwrap());
}

} // verus!
