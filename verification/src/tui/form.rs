//! A small multi-field text form, shared by the parameter and save screens.

use vstd::prelude::*;

use crate::params::opt_view;
use crate::search::matches_all;
use crate::text::{chars_of, owned, push_char, slice, string_of, trim, trimmed, words};

verus! {

broadcast use vstd::string::group_string_axioms;

pub struct Form {
    pub title: String,
    pub fields: Vec<Field>,
    pub focused: usize,
    /// Set while a value is being chosen from the focused field's list.
    pub picking: Option<Picker>,
}

pub struct Field {
    pub label: String,
    pub hint: Option<String>,
    pub value: String,
    /// Values on offer for this field, best first.
    pub choices: Vec<Choice>,
}

/// One offered value, with an optional note drawn beside it.
pub struct Choice {
    pub value: String,
    pub note: Option<String>,
}

/// Choosing a value from the focused field's list.
///
/// The field is left alone until the choice is accepted, so backing out of the
/// list has nothing to undo.
pub struct Picker {
    pub title: String,
    pub filter: String,
    pub selected: usize,
}

pub struct ChoiceView {
    pub value: Seq<char>,
    pub note: Option<Seq<char>>,
}

pub struct FieldView {
    pub label: Seq<char>,
    pub hint: Option<Seq<char>>,
    pub value: Seq<char>,
    pub choices: Seq<ChoiceView>,
}

pub struct PickerView {
    pub title: Seq<char>,
    pub filter: Seq<char>,
    pub selected: nat,
}

pub struct FormView {
    pub title: Seq<char>,
    pub fields: Seq<FieldView>,
    pub focused: nat,
    pub picking: Option<PickerView>,
}

impl View for Choice {
    type V = ChoiceView;

    open spec fn view(&self) -> ChoiceView {
        ChoiceView { value: self.value@, note: opt_view(self.note) }
    }
}

pub open spec fn choice_views(v: Seq<Choice>) -> Seq<ChoiceView> {
    v.map_values(|c: Choice| c@)
}

impl View for Field {
    type V = FieldView;

    open spec fn view(&self) -> FieldView {
        FieldView {
            label: self.label@,
            hint: opt_view(self.hint),
            value: self.value@,
            choices: choice_views(self.choices@),
        }
    }
}

pub open spec fn field_views(v: Seq<Field>) -> Seq<FieldView> {
    v.map_values(|f: Field| f@)
}

impl View for Picker {
    type V = PickerView;

    open spec fn view(&self) -> PickerView {
        PickerView { title: self.title@, filter: self.filter@, selected: self.selected as nat }
    }
}

pub open spec fn picker_view(p: Option<Picker>) -> Option<PickerView> {
    match p {
        Some(p) => Some(p@),
        None => None,
    }
}

impl View for Form {
    type V = FormView;

    open spec fn view(&self) -> FormView {
        FormView {
            title: self.title@,
            fields: field_views(self.fields@),
            focused: self.focused as nat,
            picking: picker_view(self.picking),
        }
    }
}

/// The choices of `cs` that `filter` matches, in order.
pub open spec fn shown(cs: Seq<ChoiceView>, filter: Seq<char>) -> Seq<ChoiceView>
    decreases cs.len(),
{
    if cs.len() == 0 {
        seq![]
    } else if matches_all(cs.last().value, filter) {
        shown(cs.drop_last(), filter).push(cs.last())
    } else {
        shown(cs.drop_last(), filter)
    }
}

impl FormView {
    /// A form is usable while its focus is on one of its fields.
    pub open spec fn wf(self) -> bool {
        self.focused < self.fields.len()
    }

    /// The choices the filter leaves on offer.
    pub open spec fn visible(self) -> Seq<ChoiceView> {
        match self.picking {
            None => seq![],
            Some(p) => shown(self.fields[self.focused as int].choices, p.filter),
        }
    }

    /// This form with the focused field's value replaced.
    pub open spec fn with_value(self, value: Seq<char>) -> FormView {
        FormView {
            fields: self.fields.update(
                self.focused as int,
                FieldView { value, ..self.fields[self.focused as int] },
            ),
            ..self
        }
    }

    /// The value of the focused field.
    pub open spec fn current(self) -> Seq<char> {
        self.fields[self.focused as int].value
    }

    /// This form with the picker's cursor at `selected`.
    pub open spec fn with_selected(self, selected: nat) -> FormView {
        match self.picking {
            Some(p) => FormView {
                picking: Some(PickerView { selected, ..p }),
                ..self
            },
            None => self,
        }
    }

    /// Where the cursor lands after moving by `delta` among `count` choices:
    /// kept inside the list, or on its first row when the list is empty.
    pub open spec fn clamped(selected: int, delta: int, count: int) -> nat {
        if count == 0 {
            0
        } else if selected + delta < 0 {
            0
        } else if selected + delta > count - 1 {
            (count - 1) as nat
        } else {
            (selected + delta) as nat
        }
    }

    /// This form with its picker's cursor moved by `delta`.
    pub open spec fn moved(self, delta: int) -> FormView {
        match self.picking {
            None => self,
            Some(p) => self.with_selected(
                FormView::clamped(p.selected as int, delta, self.visible().len() as int),
            ),
        }
    }

    /// This form with its picker's filter replaced and the cursor put back
    /// inside what the filter leaves.
    pub open spec fn refiltered(self, filter: Seq<char>) -> FormView {
        match self.picking {
            None => self,
            Some(p) => FormView {
                picking: Some(PickerView { filter, ..p }),
                ..self
            }.moved(0),
        }
    }
}

/// The index of the first choice of `cs` whose value is `value`.
pub open spec fn first_with(cs: Seq<ChoiceView>, value: Seq<char>) -> Option<int>
    decreases cs.len(),
{
    if cs.len() == 0 {
        None
    } else if cs[0].value == value {
        Some(0)
    } else {
        match first_with(cs.drop_first(), value) {
            Some(k) => Some(k + 1),
            None => None,
        }
    }
}

proof fn lemma_shown_all(cs: Seq<ChoiceView>, filter: Seq<char>)
    requires
        words(filter).len() == 0,
    ensures
        shown(cs, filter) == cs,
    decreases cs.len(),
{
    if cs.len() > 0 {
        lemma_shown_all(cs.drop_last(), filter);
        assert(cs.drop_last().push(cs.last()) =~= cs);
    }
}

/// The choices of `cs` that `filter` matches, in order.
fn filtered(cs: &Vec<Choice>, filter: &String) -> (r: Vec<Choice>)
    ensures
        choice_views(r@) == shown(choice_views(cs@), filter@),
{
    let ghost all = choice_views(cs@);
    let mut out: Vec<Choice> = Vec::new();
    let mut i: usize = 0;
    while i < cs.len()
        invariant
            i <= cs@.len(),
            all == choice_views(cs@),
            choice_views(out@) == shown(all.take(i as int), filter@),
        decreases cs@.len() - i,
    {
        assert(all.take(i + 1).drop_last() =~= all.take(i as int));
        assert(all.take(i + 1).last() == cs@[i as int]@);
        if crate::search::matches(cs[i].value.as_str(), filter.as_str()) {
            let c = Choice { value: cs[i].value.clone(), note: copy_note(&cs[i].note) };
            let ghost before = out@;
            let ghost cv = c@;
            out.push(c);
            assert(choice_views(out@) =~= choice_views(before).push(cv));
        }
        i += 1;
    }
    assert(all.take(i as int) =~= all);
    out
}

fn copy_note(n: &Option<String>) -> (r: Option<String>)
    ensures
        opt_view(r) == opt_view(*n),
{
    match n {
        Some(s) => Some(s.clone()),
        None => None,
    }
}

/// `s` without its last character, if it has one.
fn popped(s: &String) -> (r: String)
    ensures
        r@ == if s@.len() > 0 {
            s@.drop_last()
        } else {
            s@
        },
{
    let cs = chars_of(s.as_str());
    if cs.len() > 0 {
        let r = slice(&cs, 0, cs.len() - 1);
        assert(r@ =~= s@.drop_last());
        string_of(&r)
    } else {
        owned(s.as_str())
    }
}

impl Form {
    pub fn new(title: &str, fields: Vec<Field>) -> (r: Form)
        ensures
            r@ == (FormView {
                title: title@,
                fields: field_views(fields@),
                focused: 0,
                picking: None,
            }),
    {
        Form { title: owned(title), fields, focused: 0, picking: None }
    }

    /// The field that has the focus.
    pub fn focused(&mut self) -> (r: &mut Field)
        requires
            old(self)@.wf(),
        ensures
            *r == old(self).fields@[old(self).focused as int],
            final(self).fields@ == old(self).fields@.update(old(self).focused as int, *final(r)),
            final(self).focused == old(self).focused,
            final(self).title == old(self).title,
            final(self).picking == old(self).picking,
    {
        let i = self.focused;
        &mut self.fields[i]
    }

    /// Replaces the value of the focused field.
    fn set_value(&mut self, value: String)
        requires
            old(self)@.wf(),
        ensures
            final(self)@ == old(self)@.with_value(value@),
    {
        let i = self.focused;
        let mut field = self.fields.remove(i);
        field.value = value;
        let ghost fv = field@;
        self.fields.insert(i, field);
        assert(field_views(self.fields@) =~= field_views(old(self).fields@).update(i as int, fv));
    }

    /// Moves to the next field, reporting whether the form was already on the
    /// last one and is therefore ready to submit.
    pub fn advance(&mut self) -> (r: bool)
        requires
            old(self)@.wf(),
        ensures
            r == (old(self).focused + 1 == old(self).fields@.len()),
            final(self)@ == if r {
                old(self)@
            } else {
                FormView { focused: old(self)@.focused + 1, ..old(self)@ }
            },
    {
        let n = self.fields.len();
        if self.focused + 1 == n {
            return true;
        }
        self.focused += 1;
        false
    }

    /// Moves to the field before, staying on the first.
    pub fn retreat(&mut self)
        requires
            old(self)@.wf(),
        ensures
            final(self)@ == (FormView {
                focused: if old(self).focused == 0 {
                    0
                } else {
                    (old(self).focused - 1) as nat
                },
                ..old(self)@
            }),
    {
        if self.focused > 0 {
            self.focused -= 1;
        }
    }

    /// Types a character at the end of the focused field.
    pub fn insert(&mut self, character: char)
        requires
            old(self)@.wf(),
        ensures
            final(self)@ == old(self)@.with_value(old(self)@.current().push(character)),
    {
        let i = self.focused;
        let mut v = owned(self.fields[i].value.as_str());
        push_char(&mut v, character);
        self.set_value(v);
    }

    /// Deletes the last character of the focused field, if it has one.
    pub fn backspace(&mut self)
        requires
            old(self)@.wf(),
        ensures
            final(self)@ == old(self)@.with_value(
                if old(self)@.current().len() > 0 {
                    old(self)@.current().drop_last()
                } else {
                    old(self)@.current()
                },
            ),
    {
        let i = self.focused;
        let v = popped(&self.fields[i].value);
        self.set_value(v);
    }

    /// Empties the focused field.
    pub fn clear(&mut self)
        requires
            old(self)@.wf(),
        ensures
            final(self)@ == old(self)@.with_value(Seq::<char>::empty()),
    {
        self.set_value(String::new());
    }

    /// The value of field `index`, without white space at its ends.
    pub fn value(&self, index: usize) -> (r: String)
        requires
            index < self.fields@.len(),
        ensures
            r@ == trim(self.fields@[index as int].value@),
    {
        string_of(&trimmed(&chars_of(self.fields[index].value.as_str())))
    }

    /// Opens the focused field's list, reporting whether it had one.
    ///
    /// It opens on whatever the field already holds, so the list says where
    /// the current value sits among the rest rather than starting somewhere
    /// else.
    pub fn open_picker(&mut self, title: &str) -> (r: bool)
        requires
            old(self)@.wf(),
        ensures
            r == (old(self)@.fields[old(self)@.focused as int].choices.len() > 0),
            !r ==> final(self)@ == old(self)@,
            r ==> final(self)@ == (FormView {
                picking: Some(
                    PickerView {
                        title: title@,
                        filter: Seq::<char>::empty(),
                        selected: match first_with(
                            old(self)@.fields[old(self)@.focused as int].choices,
                            old(self)@.current(),
                        ) {
                            Some(k) => k as nat,
                            None => 0,
                        },
                    },
                ),
                ..old(self)@
            }),
            r ==> final(self)@.visible() == old(self)@.fields[old(self)@.focused as int].choices,
    {
        let i = self.focused;
        let field = &self.fields[i];
        if field.choices.len() == 0 {
            return false;
        }
        let ghost cs = choice_views(field.choices@);
        let mut k: usize = 0;
        assert(cs.skip(0) =~= cs);
        while k < field.choices.len() && field.choices[k].value != field.value
            invariant
                k <= field.choices@.len(),
                cs == choice_views(field.choices@),
                first_with(cs, field.value@) == match first_with(cs.skip(k as int), field.value@) {
                    Some(j) => Some(j + k),
                    None => None,
                },
            decreases field.choices@.len() - k,
        {
            assert(cs.skip(k as int)[0] == field.choices@[k as int]@);
            assert(cs.skip(k as int).drop_first() =~= cs.skip(k + 1));
            k += 1;
        }
        if k < field.choices.len() {
            assert(cs.skip(k as int)[0] == field.choices@[k as int]@);
        }
        let selected: usize = if k < field.choices.len() {
            k
        } else {
            0
        };
        let ghost found = first_with(cs, field.value@);
        assert(k < field.choices@.len() ==> found == Some(k as int));
        assert(k == field.choices@.len() ==> found is None) by {
            if k == field.choices@.len() {
                assert(cs.skip(k as int) =~= Seq::<ChoiceView>::empty());
            }
        }
        self.picking = Some(Picker { title: owned(title), filter: String::new(), selected });
        proof {
            let empty = Seq::<char>::empty();
            assert(words(empty) =~= Seq::<Seq<char>>::empty());
            lemma_shown_all(cs, empty);
        }
        true
    }

    /// The choices the filter leaves on offer.
    pub fn visible(&self) -> (r: Vec<Choice>)
        requires
            self@.wf(),
        ensures
            choice_views(r@) == self@.visible(),
    {
        match &self.picking {
            None => Vec::new(),
            Some(p) => filtered(&self.fields[self.focused].choices, &p.filter),
        }
    }

    /// Moves the picker's cursor by `delta`, keeping it inside the list.
    pub fn move_pick(&mut self, delta: isize)
        requires
            old(self)@.wf(),
        ensures
            final(self)@ == old(self)@.moved(delta as int),
    {
        let count = self.visible().len();
        match &mut self.picking {
            None => {},
            Some(picker) => {
                if count == 0 {
                    picker.selected = 0;
                } else {
                    let target: i128 = picker.selected as i128 + delta as i128;
                    picker.selected = if target < 0 {
                        0
                    } else if target > count as i128 - 1 {
                        count - 1
                    } else {
                        target as usize
                    };
                }
            },
        }
    }

    /// Types a character at the end of the picker's filter.
    pub fn filter_insert(&mut self, character: char)
        requires
            old(self)@.wf(),
        ensures
            final(self)@ == match old(self)@.picking {
                Some(p) => old(self)@.refiltered(p.filter.push(character)),
                None => old(self)@,
            },
    {
        if let Some(picker) = &mut self.picking {
            push_char(&mut picker.filter, character);
        }
        self.move_pick(0);
    }

    /// Deletes the last character of the picker's filter.
    pub fn filter_backspace(&mut self)
        requires
            old(self)@.wf(),
        ensures
            final(self)@ == match old(self)@.picking {
                Some(p) => old(self)@.refiltered(
                    if p.filter.len() > 0 {
                        p.filter.drop_last()
                    } else {
                        p.filter
                    },
                ),
                None => old(self)@,
            },
    {
        if let Some(picker) = &mut self.picking {
            picker.filter = popped(&picker.filter);
        }
        self.move_pick(0);
    }

    /// Empties the picker's filter.
    pub fn filter_clear(&mut self)
        requires
            old(self)@.wf(),
        ensures
            final(self)@ == match old(self)@.picking {
                Some(_) => old(self)@.refiltered(Seq::<char>::empty()),
                None => old(self)@,
            },
    {
        if let Some(picker) = &mut self.picking {
            picker.filter = String::new();
        }
        self.move_pick(0);
    }

    /// Puts the highlighted choice into the field and closes the list.
    ///
    /// With nothing highlighted, as when the filter matches nothing, the form
    /// stays as it is.
    pub fn accept_pick(&mut self)
        requires
            old(self)@.wf(),
        ensures
            ({
                let selected = match old(self)@.picking {
                    Some(p) => p.selected as int,
                    None => 0,
                };
                if selected < old(self)@.visible().len() {
                    final(self)@ == (FormView {
                        picking: None,
                        ..old(self)@.with_value(old(self)@.visible()[selected].value)
                    })
                } else {
                    final(self)@ == old(self)@
                }
            }),
    {
        let selected = match &self.picking {
            Some(p) => p.selected,
            None => 0,
        };
        let shown = self.visible();
        if selected >= shown.len() {
            return;
        }
        let value = shown[selected].value.clone();
        self.set_value(value);
        self.picking = None;
    }

    /// Closes the list, leaving the field as it was.
    pub fn cancel_pick(&mut self)
        ensures
            final(self)@ == (FormView { picking: None, ..old(self)@ }),
    {
        self.picking = None;
    }
}

impl Field {
    pub fn new(label: &str, value: &str) -> (r: Field)
        ensures
            r@ == (FieldView { label: label@, hint: None, value: value@, choices: seq![] }),
    {
        let r = Field { label: owned(label), hint: None, value: owned(value), choices: Vec::new() };
        assert(choice_views(r.choices@) =~= Seq::<ChoiceView>::empty());
        r
    }

    pub fn with_hint(self, hint: Option<String>) -> (r: Field)
        ensures
            r@ == (FieldView { hint: opt_view(hint), ..self@ }),
    {
        Field { hint, ..self }
    }

    pub fn with_choices(self, choices: Vec<Choice>) -> (r: Field)
        ensures
            r@ == (FieldView { choices: choice_views(choices@), ..self@ }),
    {
        Field { choices, ..self }
    }
}

impl Choice {
    pub fn new(value: &str, note: Option<String>) -> (r: Choice)
        ensures
            r@ == (ChoiceView { value: value@, note: opt_view(note) }),
    {
        Choice { value: owned(value), note }
    }
}

} // verus!
