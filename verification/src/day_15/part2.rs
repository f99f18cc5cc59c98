use vstd::prelude::*;
use crate::day_15::part1::{hash, hash_chars};
use crate::tally::{sum_u64, total_u64};
use crate::text::{
    chars_of, copy_range, decimal, decimal_string, find_char, index_of, parse_u8, parse_unsigned,
    split_on, split_str, str_views,
};

verus! {

/// A lens: its label and its focal length.
#[derive(Debug, Clone, PartialEq)]
pub struct Lens {
    pub label: String,
    pub focal: u8,
}

/// The mathematical content of a [`Lens`].
pub struct LensModel {
    pub label: Seq<char>,
    pub focal: u8,
}

impl View for Lens {
    type V = LensModel;

    open spec fn view(&self) -> LensModel {
        LensModel { label: self.label@, focal: self.focal }
    }
}

/// The contents of a box of lenses.
pub open spec fn lens_views(lenses: Seq<Lens>) -> Seq<LensModel> {
    Seq::new(lenses.len(), |i: int| lenses[i]@)
}

/// The contents of a row of boxes.
pub open spec fn box_views(boxes: Seq<Vec<Lens>>) -> Seq<Seq<LensModel>> {
    Seq::new(boxes.len(), |i: int| lens_views(boxes[i]@))
}

/// Where the label of `step` ends: at its first dash, or, if it has none, at
/// its first equals sign.
pub open spec fn label_end(step: Seq<char>) -> Option<int> {
    match index_of(step, '-') {
        Some(i) => Some(i),
        None => index_of(step, '='),
    }
}

/// The lens that `step` describes: the label in front of the sign, and behind
/// it a focal length of 8 bits.
pub open spec fn parsed_lens(step: Seq<char>) -> Option<LensModel> {
    match label_end(step) {
        Some(i) => match parse_unsigned(step.skip(i + 1), u8::MAX as nat) {
            Some(f) => Some(LensModel { label: step.take(i), focal: f as u8 }),
            None => None,
        },
        None => None,
    }
}

/// `lenses` without those labelled `label`.
pub open spec fn without(lenses: Seq<LensModel>, label: Seq<char>) -> Seq<LensModel>
    decreases lenses.len(),
{
    if lenses.len() == 0 {
        Seq::empty()
    } else if lenses.last().label == label {
        without(lenses.drop_last(), label)
    } else {
        without(lenses.drop_last(), label).push(lenses.last())
    }
}

/// The place of the first lens labelled `label` among `lenses`.
pub open spec fn position(lenses: Seq<LensModel>, label: Seq<char>) -> Option<int>
    decreases lenses.len(),
{
    if lenses.len() == 0 {
        None
    } else {
        match position(lenses.drop_last(), label) {
            Some(i) => Some(i),
            None => if lenses.last().label == label {
                Some(lenses.len() - 1)
            } else {
                None
            },
        }
    }
}

/// `lenses` with `lens` in the place of the first lens of the same label, or
/// at the end if there is none.
pub open spec fn with_lens(lenses: Seq<LensModel>, lens: LensModel) -> Seq<LensModel> {
    match position(lenses, lens.label) {
        Some(i) => lenses.update(i, lens),
        None => lenses.push(lens),
    }
}

/// The boxes after `step`. The label of the step picks the box by its hash. A
/// step with a dash takes the lenses of that label out of the box; any other
/// step puts its lens into the box. There are none if the step has neither
/// sign, or has no dash and a focal length that cannot be read.
pub open spec fn after_step(boxes: Seq<Seq<LensModel>>, step: Seq<char>) -> Option<
    Seq<Seq<LensModel>>,
> {
    match label_end(step) {
        Some(i) => {
            let label = step.take(i);
            let id = hash(label) as int;
            if index_of(step, '-') is Some {
                Some(boxes.update(id, without(boxes[id], label)))
            } else {
                match parsed_lens(step) {
                    Some(lens) => Some(boxes.update(id, with_lens(boxes[id], lens))),
                    None => None,
                }
            }
        },
        None => None,
    }
}

/// The 256 boxes, empty at first, after all of `steps` in turn.
pub open spec fn after_steps(steps: Seq<Seq<char>>) -> Option<Seq<Seq<LensModel>>>
    decreases steps.len(),
{
    if steps.len() == 0 {
        Some(Seq::new(256, |i: int| Seq::empty()))
    } else {
        match after_steps(steps.drop_last()) {
            Some(boxes) => after_step(boxes, steps.last()),
            None => None,
        }
    }
}

/// The focusing power of the lenses in box `box_id`: the sum, over the lenses,
/// of the number of the box from one, times the slot of the lens from one,
/// times its focal length. There is none if one of these products or sums, in
/// this order, does not fit in 64 bits.
pub open spec fn focus_power(box_id: nat, lenses: Seq<LensModel>) -> Option<u64>
    decreases lenses.len(),
{
    if lenses.len() == 0 {
        Some(0)
    } else {
        match focus_power(box_id, lenses.drop_last()) {
            Some(acc) => {
                let a = box_id + 1;
                let b = lenses.len();
                let f = lenses.last().focal as nat;
                if a <= u64::MAX && a * b <= u64::MAX && a * b * f <= u64::MAX && acc + a * b * f
                    <= u64::MAX {
                    Some((acc + a * b * f) as u64)
                } else {
                    None
                }
            },
            None => None,
        }
    }
}

/// The focusing powers of `boxes`.
pub open spec fn focus_powers(boxes: Seq<Seq<LensModel>>) -> Seq<Option<u64>> {
    Seq::new(boxes.len(), |e: int| focus_power(e as nat, boxes[e]))
}

/// The answer to the puzzle `input`: the focusing power of all boxes after
/// its steps, which a comma separates.
pub open spec fn answer(input: Seq<char>) -> Option<u64> {
    match after_steps(split_on(input, ',')) {
        Some(boxes) => total_u64(focus_powers(boxes)),
        None => None,
    }
}

/// Where the lenses have a focusing power, so have the first `k` of them.
pub proof fn lemma_focus_power_start(box_id: nat, lenses: Seq<LensModel>, k: int)
    requires
        0 <= k <= lenses.len(),
        focus_power(box_id, lenses) is Some,
    ensures
        focus_power(box_id, lenses.take(k)) is Some,
    decreases lenses.len(),
{
    if k == lenses.len() {
        assert(lenses.take(k) =~= lenses);
    } else {
        lemma_focus_power_start(box_id, lenses.drop_last(), k);
        assert(lenses.drop_last().take(k) =~= lenses.take(k));
    }
}

/// Where all steps can be done, so can the first `k` of them.
pub proof fn lemma_after_steps_start(steps: Seq<Seq<char>>, k: int)
    requires
        0 <= k <= steps.len(),
        after_steps(steps) is Some,
    ensures
        after_steps(steps.take(k)) is Some,
    decreases steps.len(),
{
    if k == steps.len() {
        assert(steps.take(k) =~= steps);
    } else {
        lemma_after_steps_start(steps.drop_last(), k);
        assert(steps.drop_last().take(k) =~= steps.take(k));
    }
}

impl Lens {
    /// Reads the lens that `input` describes, if it describes one.
    pub fn read(input: &str) -> (found: Option<Lens>)
        ensures
            found is Some <==> parsed_lens(input@) is Some,
            found is Some ==> found->0@ == parsed_lens(input@)->0,
    {
        let chars = chars_of(input);
        let end_index = match find_char(&chars, '-') {
            Some(i) => i,
            None => match find_char(&chars, '=') {
                Some(i) => i,
                None => {
                    return None;
                },
            },
        };
        let label = input.substring_char(0, end_index);
        assert(label@ =~= input@.take(end_index as int));
        let rest = copy_range(&chars, end_index + 1, chars.len());
        assert(rest@ =~= input@.skip(end_index + 1));
        match parse_u8(&rest) {
            Some(focal) => Some(Lens { label: String::from_str(label), focal }),
            None => None,
        }
    }

    /// The lens that `input` describes: a label, a dash or an equals sign, and
    /// a focal length.
    pub fn from_str(input: &str) -> (lens: Lens)
        requires
            parsed_lens(input@) is Some,
        ensures
            lens@ == parsed_lens(input@)->0,
    {
        Lens::read(input).unwrap()
    }
}

/// A lens like `lens`.
fn copy_lens(lens: &Lens) -> (copy: Lens)
    ensures
        copy@ == lens@,
{
    Lens { label: lens.label.clone(), focal: lens.focal }
}

/// The lenses of `lenses` that are not labelled `label`.
fn remove_label(lenses: &Vec<Lens>, label: &String) -> (kept: Vec<Lens>)
    ensures
        lens_views(kept@) == without(lens_views(lenses@), label@),
{
    let ghost all = lens_views(lenses@);
    let mut kept: Vec<Lens> = Vec::new();
    let mut i: usize = 0;
    assert(all.take(0) =~= Seq::<LensModel>::empty());
    assert(lens_views(kept@) =~= Seq::<LensModel>::empty());
    while i < lenses.len()
        invariant
            i <= lenses.len(),
            all == lens_views(lenses@),
            lens_views(kept@) == without(all.take(i as int), label@),
        decreases lenses.len() - i,
    {
        proof {
            assert(all.take(i + 1).drop_last() =~= all.take(i as int));
            assert(all.take(i + 1).last() == lenses@[i as int]@);
        }
        let ghost before = lens_views(kept@);
        if lenses[i].label != *label {
            kept.push(copy_lens(&lenses[i]));
            assert(lens_views(kept@) =~= before.push(lenses@[i as int]@));
        }
        i += 1;
    }
    assert(all.take(lenses.len() as int) =~= all);
    kept
}

/// The lenses `lenses` with `lens` in the place of the first lens of its
/// label, or at the end if there is none.
fn put_lens(lenses: &Vec<Lens>, lens: Lens) -> (put: Vec<Lens>)
    ensures
        lens_views(put@) == with_lens(lens_views(lenses@), lens@),
{
    let ghost all = lens_views(lenses@);
    let mut put: Vec<Lens> = Vec::new();
    let mut found: bool = false;
    let mut i: usize = 0;
    assert(all.take(0) =~= Seq::<LensModel>::empty());
    assert(lens_views(put@) =~= Seq::<LensModel>::empty());
    while i < lenses.len()
        invariant
            i <= lenses.len(),
            all == lens_views(lenses@),
            put.len() == i,
            found <==> position(all.take(i as int), lens.label@) is Some,
            found ==> 0 <= position(all.take(i as int), lens.label@)->0 < i,
            lens_views(put@) == (if found {
                all.take(i as int).update(position(all.take(i as int), lens.label@)->0, lens@)
            } else {
                all.take(i as int)
            }),
        decreases lenses.len() - i,
    {
        proof {
            assert(all.take(i + 1).drop_last() =~= all.take(i as int));
            assert(all.take(i + 1).last() == lenses@[i as int]@);
        }
        let ghost before = lens_views(put@);
        if !found && lenses[i].label == lens.label {
            found = true;
            put.push(copy_lens(&lens));
            assert(lens_views(put@) =~= before.push(lens@));
        } else {
            put.push(copy_lens(&lenses[i]));
            assert(lens_views(put@) =~= before.push(lenses@[i as int]@));
        }
        assert(lens_views(put@) =~= (if found {
            all.take(i + 1).update(position(all.take(i + 1), lens.label@)->0, lens@)
        } else {
            all.take(i + 1)
        }));
        i += 1;
    }
    assert(all.take(lenses.len() as int) =~= all);
    if !found {
        let ghost before = lens_views(put@);
        put.push(lens);
        assert(lens_views(put@) =~= before.push(lens@));
    }
    put
}

/// Computes the focusing power of the lenses in box `box_id`, if it has one.
pub fn checked_focus_power(box_id: usize, lens_box: &[Lens]) -> (found: Option<u64>)
    ensures
        found == focus_power(box_id as nat, lens_views(lens_box@)),
{
    let ghost all = lens_views(lens_box@);
    let mut acc: u64 = 0;
    let mut slot: usize = 0;
    assert(all.take(0) =~= Seq::<LensModel>::empty());
    while slot < lens_box.len()
        invariant
            slot <= lens_box.len(),
            all == lens_views(lens_box@),
            focus_power(box_id as nat, all.take(slot as int)) == Some(acc),
        decreases lens_box.len() - slot,
    {
        proof {
            assert(all.take(slot + 1).drop_last() =~= all.take(slot as int));
            assert(all.take(slot + 1).last() == lens_box@[slot as int]@);
            if focus_power(box_id as nat, all) is Some {
                lemma_focus_power_start(box_id as nat, all, slot + 1);
            }
        }
        let a = match (box_id as u64).checked_add(1) {
            Some(v) => v,
            None => {
                return None;
            },
        };
        let ab = match a.checked_mul(slot as u64 + 1) {
            Some(v) => v,
            None => {
                return None;
            },
        };
        let term = match ab.checked_mul(lens_box[slot].focal as u64) {
            Some(v) => v,
            None => {
                return None;
            },
        };
        match acc.checked_add(term) {
            Some(v) => {
                acc = v;
            },
            None => {
                return None;
            },
        }
        slot += 1;
    }
    assert(all.take(lens_box.len() as int) =~= all);
    Some(acc)
}

/// The focusing power of the lenses in box `box_id`.
pub fn box_focus_power(box_id: usize, lens_box: &[Lens]) -> (power: u64)
    requires
        focus_power(box_id as nat, lens_views(lens_box@)) is Some,
    ensures
        power == focus_power(box_id as nat, lens_views(lens_box@))->0,
{
    checked_focus_power(box_id, lens_box).unwrap()
}

/// Does one step on the boxes, if it can be done.
fn do_step(boxes: &mut Vec<Vec<Lens>>, step: &str) -> (done: bool)
    requires
        old(boxes).len() == 256,
    ensures
        final(boxes).len() == 256,
        done <==> after_step(box_views(old(boxes)@), step@) is Some,
        done ==> box_views(final(boxes)@) == after_step(box_views(old(boxes)@), step@)->0,
{
    let chars = chars_of(step);
    let dash = find_char(&chars, '-');
    let end_index = match dash {
        Some(i) => i,
        None => match find_char(&chars, '=') {
            Some(i) => i,
            None => {
                return false;
            },
        },
    };
    let label_chars = copy_range(&chars, 0, end_index);
    assert(label_chars@ =~= step@.take(end_index as int));
    let box_id = hash_chars(&label_chars) as usize;
    let ghost before = box_views(boxes@);
    if dash.is_some() {
        let label_text = step.substring_char(0, end_index);
        let label = String::from_str(label_text);
        assert(label@ =~= step@.take(end_index as int));
        let kept = remove_label(&boxes[box_id], &label);
        boxes.set(box_id, kept);
        assert(box_views(boxes@) =~= before.update(
            box_id as int,
            without(before[box_id as int], label@),
        ));
        true
    } else {
        match Lens::read(step) {
            Some(lens) => {
                let ghost model = lens@;
                let put = put_lens(&boxes[box_id], lens);
                boxes.set(box_id, put);
                assert(box_views(boxes@) =~= before.update(
                    box_id as int,
                    with_lens(before[box_id as int], model),
                ));
                true
            },
            None => false,
        }
    }
}

/// Computes the answer to the puzzle `input`, if it has one.
pub fn solve(input: &str) -> (found: Option<u64>)
    ensures
        found == answer(input@),
{
    let steps = split_str(input, ',');
    let ghost all = str_views(steps@);
    let mut boxes: Vec<Vec<Lens>> = Vec::new();
    while boxes.len() < 256
        invariant
            boxes.len() <= 256,
            forall|i: int| 0 <= i < boxes.len() ==> (#[trigger] boxes[i])@.len() == 0,
        decreases 256 - boxes.len(),
    {
        boxes.push(Vec::new());
    }
    assert forall|i: int| 0 <= i < 256 implies #[trigger] box_views(boxes@)[i]
        == Seq::<LensModel>::empty() by {
        assert(lens_views(boxes[i]@) =~= Seq::<LensModel>::empty());
    }
    assert(box_views(boxes@) =~= Seq::new(256, |i: int| Seq::<LensModel>::empty()));
    assert(all.take(0) =~= Seq::<Seq<char>>::empty());
    let mut k: usize = 0;
    while k < steps.len()
        invariant
            k <= steps.len(),
            all == str_views(steps@),
            all == split_on(input@, ','),
            boxes.len() == 256,
            after_steps(all.take(k as int)) == Some(box_views(boxes@)),
        decreases steps.len() - k,
    {
        proof {
            assert(all.take(k + 1).drop_last() =~= all.take(k as int));
            assert(all.take(k + 1).last() == steps@[k as int]@);
            if after_steps(all) is Some {
                lemma_after_steps_start(all, k + 1);
            }
        }
        if !do_step(&mut boxes, steps[k]) {
            return None;
        }
        k += 1;
    }
    assert(all.take(steps.len() as int) =~= all);
    let mut powers: Vec<Option<u64>> = Vec::new();
    let mut e: usize = 0;
    while e < 256
        invariant
            e <= 256,
            boxes.len() == 256,
            powers.len() == e,
            forall|i: int|
                0 <= i < e ==> (#[trigger] powers[i]) == focus_power(
                    i as nat,
                    lens_views(boxes[i]@),
                ),
        decreases 256 - e,
    {
        powers.push(checked_focus_power(e, boxes[e].as_slice()));
        e += 1;
    }
    assert(powers@ =~= focus_powers(box_views(boxes@)));
    sum_u64(&powers)
}

/// The answer to the puzzle `input`, in decimal digits.
pub fn process(input: &str) -> (out: String)
    requires
        answer(input@) is Some,
    ensures
        out@ == decimal(answer(input@)->0 as nat),
{
    decimal_string(solve(input).unwrap())
}

} // verus!
