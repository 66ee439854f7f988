//! Which of the system's sensors tells the temperature of the processor.
use vstd::prelude::*;

verus! {

/// A letter in lower case, as far as it is one of ASCII.
pub open spec fn lower(c: char) -> char {
    if 'A' <= c <= 'Z' {
        (c as u32 + 32) as char
    } else {
        c
    }
}

/// The word stands in the label at that place, in whatever case.
pub open spec fn stands_at(label: Seq<char>, word: Seq<char>, place: int) -> bool {
    &&& 0 <= place <= label.len() - word.len()
    &&& forall|k: int| 0 <= k < word.len() ==> lower(#[trigger] label[place + k]) == word[k]
}

/// The word stands somewhere in the label, in whatever case.
pub open spec fn mentions(label: Seq<char>, word: Seq<char>) -> bool {
    exists|place: int| #[trigger] stands_at(label, word, place)
}

/// The label names a processor, or one of the drivers that read its temperature.
pub open spec fn names_processor(label: Seq<char>) -> bool {
    ||| mentions(label, seq!['c', 'p', 'u'])
    ||| mentions(label, seq!['c', 'o', 'r', 'e', 't', 'e', 'm', 'p'])
    ||| mentions(label, seq!['k', '1', '0', 't', 'e', 'm', 'p'])
}

fn lowered(c: char) -> (l: char)
    ensures
        l == lower(c),
{
    if 'A' <= c && c <= 'Z' {
        (c as u8 + 32) as char
    } else {
        c
    }
}

/// Whether the word stands in the label at that place.
fn matches_at(label: &Vec<char>, word: &Vec<char>, place: usize) -> (found: bool)
    requires
        place + word@.len() <= label@.len(),
    ensures
        found == stands_at(label@, word@, place as int),
{
    let len: usize = label.len();
    let mut k: usize = 0;
    while k < word.len()
        invariant
            k <= word@.len(),
            len == label@.len(),
            place + word@.len() <= len,
            forall|j: int| 0 <= j < k ==> lower(#[trigger] label@[place + j]) == word@[j],
        decreases word@.len() - k,
    {
        if lowered(label[place + k]) != word[k] {
            proof {
                assert(lower(label@[place + k as int]) != word@[k as int]);
            }
            return false;
        }
        k = k + 1;
    }
    true
}

/// Whether the word stands in the label.
fn finds(label: &Vec<char>, word: &Vec<char>) -> (found: bool)
    ensures
        found == mentions(label@, word@),
{
    if word.len() > label.len() {
        return false;
    }
    let last: usize = label.len() - word.len();
    let mut place: usize = 0;
    while place < last
        invariant
            place <= last,
            last == label@.len() - word@.len(),
            forall|p: int| 0 <= p < place ==> !#[trigger] stands_at(label@, word@, p),
        decreases last - place,
    {
        if matches_at(label, word, place) {
            return true;
        }
        place = place + 1;
    }
    matches_at(label, word, last)
}

/// Whether the label names a processor, or one of the drivers that read its
/// temperature.
pub fn is_processor(label: &Vec<char>) -> (named: bool)
    ensures
        named == names_processor(label@),
{
    let cpu: Vec<char> = vec!['c', 'p', 'u'];
    let intel: Vec<char> = vec!['c', 'o', 'r', 'e', 't', 'e', 'm', 'p'];
    let amd: Vec<char> = vec!['k', '1', '0', 't', 'e', 'm', 'p'];
    proof {
        assert(cpu@ =~= seq!['c', 'p', 'u']);
        assert(intel@ =~= seq!['c', 'o', 'r', 'e', 't', 'e', 'm', 'p']);
        assert(amd@ =~= seq!['k', '1', '0', 't', 'e', 'm', 'p']);
    }
    finds(label, &cpu) || finds(label, &intel) || finds(label, &amd)
}

/// The place of the first label that names a processor.
pub fn first_processor(labels: &Vec<Vec<char>>) -> (place: Option<usize>)
    ensures
        match place {
            Some(p) => {
                &&& p < labels@.len()
                &&& names_processor(labels@[p as int]@)
                &&& forall|i: int| 0 <= i < p ==> !names_processor(#[trigger] labels@[i]@)
            },
            None => forall|i: int|
                0 <= i < labels@.len() ==> !names_processor(#[trigger] labels@[i]@),
        },
{
    let mut i: usize = 0;
    while i < labels.len()
        invariant
            i <= labels@.len(),
            forall|j: int| 0 <= j < i ==> !names_processor(#[trigger] labels@[j]@),
        decreases labels@.len() - i,
    {
        if is_processor(&labels[i]) {
            return Some(i);
        }
        i = i + 1;
    }
    None
}

/// The text is the word, each letter of it small or capital.
pub open spec fn spells(text: Seq<char>, small: Seq<char>, capital: Seq<char>) -> bool {
    &&& text.len() == small.len()
    &&& forall|k: int|
        0 <= k < text.len() ==> #[trigger] text[k] == small[k] || text[k] == capital[k]
}

/// The text is one of the words that a processor is known by.
pub open spec fn is_known(text: Seq<char>) -> bool {
    ||| spells(text, seq!['c', 'p', 'u'], seq!['C', 'P', 'U'])
    ||| spells(
        text,
        seq!['c', 'o', 'r', 'e', 't', 'e', 'm', 'p'],
        seq!['C', 'O', 'R', 'E', 'T', 'E', 'M', 'P'],
    )
    ||| spells(
        text,
        seq!['k', '1', '0', 't', 'e', 'm', 'p'],
        seq!['K', '1', '0', 'T', 'E', 'M', 'P'],
    )
}

proof fn lemma_spelled(label: Seq<char>, small: Seq<char>, capital: Seq<char>, a: int)
    requires
        small.len() == capital.len(),
        0 <= a <= label.len() - small.len(),
        forall|k: int|
            0 <= k < small.len() ==> (forall|c: char|
                lower(c) == #[trigger] small[k] <==> c == small[k] || c == capital[k]),
    ensures
        stands_at(label, small, a) <==> spells(label.subrange(a, a + small.len()), small, capital),
{
    let part = label.subrange(a, a + small.len());
    if spells(part, small, capital) {
        assert forall|k: int| 0 <= k < small.len() implies lower(#[trigger] label[a + k])
            == small[k] by {
            assert(part[k] == label[a + k]);
        }
    }
    if stands_at(label, small, a) {
        assert forall|k: int| 0 <= k < part.len() implies #[trigger] part[k] == small[k] || part[k]
            == capital[k] by {
            assert(lower(label[a + k]) == small[k]);
        }
    }
}

/// A label names a processor if and only if some part of it is one of the words that a
/// processor is known by.
pub proof fn law_labels_that_name_a_processor(label: Seq<char>)
    ensures
        names_processor(label) <==> exists|a: int, b: int|
            0 <= a <= b <= label.len() && is_known(#[trigger] label.subrange(a, b)),
{
    let cpu = (seq!['c', 'p', 'u'], seq!['C', 'P', 'U']);
    let intel = (
        seq!['c', 'o', 'r', 'e', 't', 'e', 'm', 'p'],
        seq!['C', 'O', 'R', 'E', 'T', 'E', 'M', 'P'],
    );
    let amd = (
        seq!['k', '1', '0', 't', 'e', 'm', 'p'],
        seq!['K', '1', '0', 'T', 'E', 'M', 'P'],
    );
    assert forall|a: int| 0 <= a <= label.len() - 3 implies (stands_at(label, cpu.0, a)
        <==> #[trigger] spells(label.subrange(a, a + 3), cpu.0, cpu.1)) by {
        lemma_spelled(label, cpu.0, cpu.1, a);
    }
    assert forall|a: int| 0 <= a <= label.len() - 8 implies (stands_at(label, intel.0, a)
        <==> #[trigger] spells(label.subrange(a, a + 8), intel.0, intel.1)) by {
        lemma_spelled(label, intel.0, intel.1, a);
    }
    assert forall|a: int| 0 <= a <= label.len() - 7 implies (stands_at(label, amd.0, a)
        <==> #[trigger] spells(label.subrange(a, a + 7), amd.0, amd.1)) by {
        lemma_spelled(label, amd.0, amd.1, a);
    }
    if names_processor(label) {
        if mentions(label, cpu.0) {
            let a = choose|a: int| #[trigger] stands_at(label, cpu.0, a);
            assert(spells(label.subrange(a, a + 3), cpu.0, cpu.1));
            assert(is_known(label.subrange(a, a + 3)));
        } else if mentions(label, intel.0) {
            let a = choose|a: int| #[trigger] stands_at(label, intel.0, a);
            assert(spells(label.subrange(a, a + 8), intel.0, intel.1));
            assert(is_known(label.subrange(a, a + 8)));
        } else {
            let a = choose|a: int| #[trigger] stands_at(label, amd.0, a);
            assert(spells(label.subrange(a, a + 7), amd.0, amd.1));
            assert(is_known(label.subrange(a, a + 7)));
        }
    }
    if exists|a: int, b: int|
        0 <= a <= b <= label.len() && is_known(#[trigger] label.subrange(a, b)) {
        let (a, b) = choose|a: int, b: int|
            0 <= a <= b <= label.len() && is_known(#[trigger] label.subrange(a, b));
        let part = label.subrange(a, b);
        if spells(part, cpu.0, cpu.1) {
            assert(spells(label.subrange(a, a + 3), cpu.0, cpu.1));
            assert(stands_at(label, cpu.0, a));
        } else if spells(part, intel.0, intel.1) {
            assert(spells(label.subrange(a, a + 8), intel.0, intel.1));
            assert(stands_at(label, intel.0, a));
        } else {
            assert(spells(label.subrange(a, a + 7), amd.0, amd.1));
            assert(stands_at(label, amd.0, a));
        }
    }
}

} // verus!
