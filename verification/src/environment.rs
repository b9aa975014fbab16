//! What the surroundings of a process say: memory, job size and server address.
use crate::text::{
    is_space, lemma_first_line, lemma_number_read_back, lemma_second_word, lemma_trimmed,
    lemma_written_digits, written,
};
use crate::text::{
    chars_of, end_of_line, find_second_word, find_trimmed, first_line, line_len, number,
    parse_number, second_word, trimmed,
};
use vstd::prelude::*;

verus! {

/// Elements assumed to fit in memory where the amount of memory is unknown.
pub const FALLBACK_ELEMENTS: u64 = 1_000_000_000 / 8;

/// The amount that a line of the memory report gives, if it is the line of the
/// total.
pub open spec fn line_mem_total(line: Seq<char>) -> Option<nat> {
    if "MemTotal:"@.is_prefix_of(line) {
        number(second_word(line), u64::MAX as nat)
    } else {
        None
    }
}

/// The amount in the first line of the memory report that gives the total.
pub open spec fn mem_total(report: Seq<char>) -> Option<nat>
    decreases report.len(),
{
    match line_mem_total(first_line(report)) {
        Some(amount) => Some(amount),
        None => if line_len(report) < report.len() {
            mem_total(report.skip(line_len(report) as int + 1))
        } else {
            None
        },
    }
}

/// A line that does not give the total is passed over.
pub proof fn lemma_line_passed_over(line: Seq<char>, rest: Seq<char>)
    requires
        !line.contains('\n'),
        !"MemTotal:"@.is_prefix_of(line) || number(second_word(line), u64::MAX as nat) is None,
    ensures
        mem_total(line.push('\n') + rest) == mem_total(rest),
        mem_total(line) is None,
{
    let report = line.push('\n') + rest;
    lemma_first_line(line, rest);
    assert(report.skip(line.len() as int + 1) =~= rest);
}

/// The first line that gives the total decides: `MemTotal:`, white space, and
/// the amount in base ten up to the next white space.
pub proof fn lemma_mem_total_read(gap: Seq<char>, amount: nat, unit: Seq<char>, rest: Seq<char>)
    requires
        amount <= u64::MAX,
        gap.len() > 0,
        forall|j: int| 0 <= j < gap.len() ==> is_space(#[trigger] gap[j]) && gap[j] != '\n',
        unit.len() > 0 ==> is_space(unit[0]),
        !unit.contains('\n'),
    ensures
        ({
            let line = "MemTotal:"@ + gap + written(amount) + unit;
            &&& mem_total(line) == Some(amount)
            &&& mem_total(line.push('\n') + rest) == Some(amount)
        }),
{
    let title = "MemTotal:"@;
    let digits = written(amount);
    let line = title + gap + digits + unit;
    reveal_strlit("MemTotal:");
    lemma_number_read_back(amount, 0, u64::MAX as nat);
    lemma_written_digits(amount);
    assert forall|j: int| 0 <= j < line.len() implies #[trigger] line[j] != '\n' by {
        if j >= title.len() + gap.len() + digits.len() {
            let k = j - title.len() - gap.len() - digits.len();
            assert(line[j] == unit[k]);
            assert(unit.contains(unit[k]));
        } else if j >= title.len() + gap.len() {
            assert(line[j] == digits[j - title.len() - gap.len()]);
        } else if j >= title.len() {
            assert(line[j] == gap[j - title.len()]);
        }
    }
    lemma_first_line(line, rest);
    lemma_second_word(Seq::empty(), title, gap, digits, unit);
    assert(Seq::<char>::empty() + title =~= title);
    assert(title.is_prefix_of(line)) by {
        assert(title =~= line.subrange(0, title.len() as int));
    }
}

/// Whether `s[from..to]` starts with `prefix`.
fn starts_with(s: &[char], from: usize, to: usize, prefix: &[char]) -> (yes: bool)
    requires
        from <= to <= s@.len(),
    ensures
        yes == prefix@.is_prefix_of(s@.subrange(from as int, to as int)),
{
    let ghost text = s@.subrange(from as int, to as int);
    let n: usize = prefix.len();
    if n > to - from {
        return false;
    }
    let mut i: usize = 0;
    while i < n
        invariant
            i <= n,
            n == prefix@.len(),
            n <= to - from,
            from <= to <= s@.len(),
            text == s@.subrange(from as int, to as int),
            forall|j: int| 0 <= j < i ==> prefix@[j] == #[trigger] text[j],
        decreases n - i,
    {
        if s[from + i] != prefix[i] {
            assert(text[i as int] != prefix@[i as int]);
            assert(text.subrange(0, n as int)[i as int] == text[i as int]);
            return false;
        }
        i = i + 1;
    }
    assert(prefix@ =~= text.subrange(0, n as int));
    true
}

/// Total memory in kB, from the text of `/proc/meminfo`: the second word of the
/// first line that starts with `MemTotal:` and has a number there.
pub fn mem_total_kb(report: &str) -> (amount: Option<u64>)
    ensures
        amount is Some <==> mem_total(report@) is Some,
        amount matches Some(kb) ==> mem_total(report@) == Some(kb as nat),
{
    let chars: Vec<char> = chars_of(report);
    let title: Vec<char> = chars_of("MemTotal:");
    let s: &[char] = chars.as_slice();
    let len: usize = s.len();
    let mut from: usize = 0;
    assert(s@.skip(0) =~= s@);
    loop
        invariant
            from <= len,
            len == s@.len(),
            s@ == report@,
            title@ == "MemTotal:"@,
            mem_total(s@.skip(from as int)) == mem_total(report@),
        decreases len - from,
    {
        let to: usize = end_of_line(s, from);
        let ghost rest = s@.skip(from as int);
        assert(first_line(rest) =~= s@.subrange(from as int, to as int));
        if starts_with(s, from, to, title.as_slice()) {
            let (a, b) = find_second_word(s, from, to);
            let amount: Option<u64> = parse_number(s, a, b, u64::MAX);
            if amount.is_some() {
                return amount;
            }
        }
        if to == len {
            return None;
        }
        assert(rest.skip(line_len(rest) as int + 1) =~= s@.skip(to + 1));
        from = to + 1;
    }
}

/// Number of 8-byte elements that fit in `total_kb` kB of memory.
pub fn elements_in_memory(total_kb: Option<u64>) -> (elements: u64)
    requires
        total_kb matches Some(kb) ==> kb * 1024 <= u64::MAX,
    ensures
        total_kb matches Some(kb) ==> elements == kb * 128,
        total_kb is None ==> elements == 125_000_000,
{
    match total_kb {
        Some(kb) => (kb * 1024) / 8,
        None => FALLBACK_ELEMENTS,
    }
}

/// The address that the text of an address file gives: its first line without
/// the white space at the ends, unless that is empty.
pub open spec fn listed_uri(content: Seq<char>) -> Option<Seq<char>> {
    let uri = trimmed(first_line(content));
    if uri.len() > 0 {
        Some(uri)
    } else {
        None
    }
}

/// The address is the first line of the file, without the white space round it,
/// and a file whose first line is blank gives none.
pub proof fn lemma_listed_uri(
    front: Seq<char>,
    uri: Seq<char>,
    back: Seq<char>,
    rest: Seq<char>,
)
    requires
        forall|j: int| 0 <= j < front.len() ==> is_space(#[trigger] front[j]) && front[j] != '\n',
        forall|j: int| 0 <= j < back.len() ==> is_space(#[trigger] back[j]) && back[j] != '\n',
        !uri.contains('\n'),
        uri.len() > 0,
        !is_space(uri[0]),
        !is_space(uri.last()),
    ensures
        listed_uri(front + uri + back) == Some(uri),
        listed_uri((front + uri + back).push('\n') + rest) == Some(uri),
        listed_uri(front) is None,
        listed_uri(front.push('\n') + rest) is None,
{
    let line = front + uri + back;
    lemma_trimmed(front, uri, back);
    assert forall|j: int| 0 <= j < line.len() implies #[trigger] line[j] != '\n' by {
        if j >= front.len() + uri.len() {
            assert(line[j] == back[j - front.len() - uri.len()]);
        } else if j >= front.len() {
            assert(uri.contains(uri[j - front.len()]));
        }
    }
    lemma_first_line(line, rest);
    lemma_first_line(front, rest);
}

/// Address of the process management server to connect to. A process that was
/// started by a process manager finds the server through its environment and
/// must not be given an address; another one takes it from the address file.
pub fn resolve_pmix_server_uri(managed: bool, uri_file: Option<&str>) -> (uri: Option<String>)
    ensures
        managed || uri_file is None ==> uri is None,
        !managed ==> (uri_file matches Some(content) ==> match listed_uri(content@) {
            Some(text) => uri is Some && uri->0@ == text,
            None => uri is None,
        }),
{
    if managed {
        return None;
    }
    match uri_file {
        Some(content) => {
            let chars: Vec<char> = chars_of(content);
            let s: &[char] = chars.as_slice();
            let end: usize = end_of_line(s, 0);
            assert(s@.skip(0) =~= s@);
            assert(first_line(s@) =~= s@.subrange(0, end as int));
            let (a, b) = find_trimmed(s, 0, end);
            if a == b {
                return None;
            }
            Some(content.substring_char(a, b).to_owned())
        },
        None => None,
    }
}

/// Number of processes of the job: what the process manager reports, or else
/// the number in the environment variable.
pub fn job_size(reported: Option<u32>, variable: Option<&str>) -> (size: Option<usize>)
    ensures
        reported matches Some(n) ==> size == Some(n as usize),
        reported is None ==> match variable {
            Some(text) => match number(text@, usize::MAX as nat) {
                Some(n) => size == Some(n as usize),
                None => size is None,
            },
            None => size is None,
        },
{
    match reported {
        Some(n) => Some(n as usize),
        None => match variable {
            Some(text) => {
                let chars: Vec<char> = chars_of(text);
                let value: Option<u64> = parse_number(
                    chars.as_slice(),
                    0,
                    chars.len(),
                    usize::MAX as u64,
                );
                assert(chars@.subrange(0, chars@.len() as int) =~= text@);
                match value {
                    Some(n) => Some(n as usize),
                    None => None,
                }
            },
            None => None,
        },
    }
}

} // verus!
