use vstd::prelude::*;
use crate::names::string_views;

verus! {

/// A point of a price series that a signal reads: the series at `index`,
/// counted from its last point back by `sub_from_last_i`.
#[derive(Clone, Copy, Debug)]
pub struct UsedSrc {
    pub index: usize,
    pub sub_from_last_i: usize,
}

/// The settings of one signal, under its unique name: the key of the kind of
/// signal, and where its arguments come from.
#[derive(Debug)]
pub struct SignalSetting {
    pub name: String,
    pub key: String,
    pub used_src: Vec<UsedSrc>,
    pub used_ind: Vec<String>,
    pub used_signals: Vec<String>,
    pub procedure_used_src: Vec<usize>,
    pub procedure_used_signals: Vec<usize>,
}

/// The names of the settings, in their order.
pub open spec fn setting_names(settings: Seq<SignalSetting>) -> Seq<Seq<char>> {
    Seq::new(settings.len(), |i: int| settings[i].name@)
}

/// The keys of the settings, in their order.
pub open spec fn setting_keys(settings: Seq<SignalSetting>) -> Seq<Seq<char>> {
    Seq::new(settings.len(), |i: int| settings[i].key@)
}

/// One name per setting, the name of the setting at the same position.
pub proof fn law_setting_names(settings: Seq<SignalSetting>)
    ensures
        setting_names(settings).len() == settings.len(),
        forall|i: int| 0 <= i < settings.len() ==> #[trigger] setting_names(settings)[i] == settings[i].name@,
        setting_keys(settings).len() == settings.len(),
        forall|i: int| 0 <= i < settings.len() ==> #[trigger] setting_keys(settings)[i] == settings[i].key@,
{
}

/// The names of the settings, in their order.
pub fn names_of(settings: &Vec<SignalSetting>) -> (r: Vec<String>)
    ensures
        string_views(r@) == setting_names(settings@),
        r.len() == settings.len(),
        forall|i: int| 0 <= i < settings.len() ==> #[trigger] r@[i]@ == settings@[i].name@,
{
    let mut r: Vec<String> = Vec::new();
    let mut i: usize = 0;
    while i < settings.len()
        invariant
            i <= settings.len(),
            string_views(r@) == setting_names(settings@).take(i as int),
        decreases settings.len() - i,
    {
        let ghost old_r = r@;
        assert(string_views(old_r).len() == old_r.len());
        let v = settings[i].name.clone();
        assert(v@ == settings@[i as int].name@);
        r.push(v);
        assert(r@ == old_r.push(v));
        assert(string_views(r@)[i as int] == v@);
        assert forall|q: int| 0 <= q < i implies string_views(r@)[q] == string_views(old_r)[q] by {}
        i = i + 1;
        assert(string_views(r@) =~= setting_names(settings@).take(i as int));
    }
    assert(setting_names(settings@).take(settings.len() as int) == setting_names(settings@));
    assert(string_views(r@).len() == r.len());
    assert forall|i: int| 0 <= i < settings.len() implies #[trigger] r@[i]@ == settings@[i].name@ by {
        assert(string_views(r@)[i] == r@[i]@);
    }
    r
}

/// The keys of the settings, in their order.
pub fn keys_of(settings: &Vec<SignalSetting>) -> (r: Vec<String>)
    ensures
        string_views(r@) == setting_keys(settings@),
        r.len() == settings.len(),
        forall|i: int| 0 <= i < settings.len() ==> #[trigger] r@[i]@ == settings@[i].key@,
{
    let mut r: Vec<String> = Vec::new();
    let mut i: usize = 0;
    while i < settings.len()
        invariant
            i <= settings.len(),
            string_views(r@) == setting_keys(settings@).take(i as int),
        decreases settings.len() - i,
    {
        let ghost old_r = r@;
        assert(string_views(old_r).len() == old_r.len());
        let v = settings[i].key.clone();
        assert(v@ == settings@[i as int].key@);
        r.push(v);
        assert(r@ == old_r.push(v));
        assert(string_views(r@)[i as int] == v@);
        assert forall|q: int| 0 <= q < i implies string_views(r@)[q] == string_views(old_r)[q] by {}
        i = i + 1;
        assert(string_views(r@) =~= setting_keys(settings@).take(i as int));
    }
    assert(setting_keys(settings@).take(settings.len() as int) == setting_keys(settings@));
    assert(string_views(r@).len() == r.len());
    assert forall|i: int| 0 <= i < settings.len() implies #[trigger] r@[i]@ == settings@[i].key@ by {
        assert(string_views(r@)[i] == r@[i]@);
    }
    r
}

} // verus!
