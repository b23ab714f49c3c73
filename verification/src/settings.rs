//! Doctor profile and user settings.
//!
//! The profile table holds at most one row; settings are keyed by a
//! unique text key and reset to a fixed appearance set.

use vstd::prelude::*;

verus! {

/// The practitioner's profile.
#[derive(Debug, PartialEq)]
pub struct DoctorProfile {
    pub id: Option<i64>,
    pub doctor_id: String,
    pub name: String,
    pub email: Option<String>,
    pub clinic_name: Option<String>,
    pub clinic_hours: Option<String>,
    pub clinic_slogan: Option<String>,
    pub phone: Option<String>,
    pub location: Option<String>,
    pub app_version: Option<String>,
    pub agreed_to_terms: Option<bool>,
    pub last_sync: Option<String>,
}

impl Clone for DoctorProfile {
    fn clone(&self) -> (r: Self)
        ensures
            r == *self,
    {
        DoctorProfile {
            id: self.id,
            doctor_id: self.doctor_id.clone(),
            name: self.name.clone(),
            email: crate::model::clone_opt_string(&self.email),
            clinic_name: crate::model::clone_opt_string(&self.clinic_name),
            clinic_hours: crate::model::clone_opt_string(&self.clinic_hours),
            clinic_slogan: crate::model::clone_opt_string(&self.clinic_slogan),
            phone: crate::model::clone_opt_string(&self.phone),
            location: crate::model::clone_opt_string(&self.location),
            app_version: crate::model::clone_opt_string(&self.app_version),
            agreed_to_terms: self.agreed_to_terms,
            last_sync: crate::model::clone_opt_string(&self.last_sync),
        }
    }
}

/// One user setting.
#[derive(Debug, PartialEq)]
pub struct UserSetting {
    pub id: Option<i64>,
    pub key: String,
    pub value: Option<String>,
    pub category: Option<String>,
}

impl Clone for UserSetting {
    fn clone(&self) -> (r: Self)
        ensures
            r == *self,
    {
        UserSetting {
            id: self.id,
            key: self.key.clone(),
            value: crate::model::clone_opt_string(&self.value),
            category: crate::model::clone_opt_string(&self.category),
        }
    }
}

/// The profile-and-settings store.
pub struct SettingsStore {
    pub profile: Option<DoctorProfile>,
    pub next_profile_id: i64,
    pub settings: Vec<UserSetting>,
    pub next_setting_id: i64,
}

/// What an update leaves on the profile row: the stored identity and
/// doctor code kept, the editable fields replaced, agreement defaulted
/// to declined when absent.
pub open spec fn profile_updated(stored: DoctorProfile, kept: DoctorProfile, given: DoctorProfile) -> bool {
    &&& stored.id == kept.id
    &&& stored.doctor_id == kept.doctor_id
    &&& stored.app_version == kept.app_version
    &&& stored.last_sync == kept.last_sync
    &&& stored.name == given.name
    &&& stored.email == given.email
    &&& stored.clinic_name == given.clinic_name
    &&& stored.clinic_hours == given.clinic_hours
    &&& stored.clinic_slogan == given.clinic_slogan
    &&& stored.phone == given.phone
    &&& stored.location == given.location
    &&& stored.agreed_to_terms == Some(
        match given.agreed_to_terms {
            Some(b) => b,
            None => false,
        },
    )
}

/// What an insert stores: the submitted fields under a fresh identity,
/// the version defaulted when absent.
pub open spec fn profile_inserted(stored: DoctorProfile, given: DoctorProfile, pid: i64) -> bool {
    &&& stored.id == Some(pid)
    &&& stored.doctor_id == given.doctor_id
    &&& stored.name == given.name
    &&& stored.email == given.email
    &&& stored.clinic_name == given.clinic_name
    &&& stored.clinic_hours == given.clinic_hours
    &&& stored.clinic_slogan == given.clinic_slogan
    &&& stored.phone == given.phone
    &&& stored.location == given.location
    &&& stored.agreed_to_terms == Some(
        match given.agreed_to_terms {
            Some(b) => b,
            None => false,
        },
    )
    &&& match given.app_version {
        Some(_) => stored.app_version == given.app_version,
        None => stored.app_version is Some && stored.app_version->0@ == "1.0.0"@,
    }
    &&& stored.last_sync is None
}

/// The first index holding the setting with the given key.
pub open spec fn find_setting(t: Seq<UserSetting>, key: Seq<char>) -> Option<int>
    decreases t.len(),
{
    if t.len() == 0 {
        None
    } else if t.first().key@ == key {
        Some(0)
    } else {
        match find_setting(t.drop_first(), key) {
            Some(j) => Some(j + 1),
            None => None,
        }
    }
}

proof fn lemma_find_setting_at(t: Seq<UserSetting>, key: Seq<char>, i: int)
    requires
        0 <= i < t.len(),
        t[i].key@ == key,
        forall|j: int| 0 <= j < i ==> (#[trigger] t[j]).key@ != key,
    ensures
        find_setting(t, key) == Some(i),
    decreases t.len(),
{
    if i > 0 {
        assert(t.drop_first()[i - 1] == t[i]);
        assert(forall|j: int| 0 <= j < i - 1 ==> (#[trigger] t.drop_first()[j]) == t[j + 1]);
        lemma_find_setting_at(t.drop_first(), key, i - 1);
    }
}

proof fn lemma_find_setting_none(t: Seq<UserSetting>, key: Seq<char>)
    requires
        forall|j: int| 0 <= j < t.len() ==> (#[trigger] t[j]).key@ != key,
    ensures
        find_setting(t, key) is None,
    decreases t.len(),
{
    if t.len() > 0 {
        assert(forall|j: int|
            0 <= j < t.len() - 1 ==> (#[trigger] t.drop_first()[j]) == t[j + 1]);
        lemma_find_setting_none(t.drop_first(), key);
    }
}

/// Finds the index of the setting with the given key.
pub fn find_setting_index(t: &Vec<UserSetting>, key: &String) -> (r: Option<usize>)
    ensures
        match r {
            Some(j) => find_setting(t@, key@) == Some(j as int) && j < t@.len()
                && t@[j as int].key@ == key@,
            None => find_setting(t@, key@) is None,
        },
{
    let mut i: usize = 0;
    while i < t.len()
        invariant
            i <= t.len(),
            forall|j: int| 0 <= j < i ==> (#[trigger] t@[j]).key@ != key@,
        decreases t.len() - i,
    {
        if t[i].key == *key {
            proof {
                lemma_find_setting_at(t@, key@, i as int);
            }
            return Some(i);
        }
        i = i + 1;
    }
    proof {
        lemma_find_setting_none(t@, key@);
    }
    None
}

/// One default setting row.
pub open spec fn default_setting(
    s: UserSetting,
    id: i64,
    key: Seq<char>,
    value: Seq<char>,
) -> bool {
    &&& s.id == Some(id)
    &&& s.key@ == key
    &&& s.value is Some && s.value->0@ == value
    &&& s.category is Some && s.category->0@ == "appearance"@
}

impl SettingsStore {
    /// An empty store.
    pub fn new() -> (s: SettingsStore)
        ensures
            s.profile is None,
            s.settings@.len() == 0,
            s.next_profile_id == 1,
            s.next_setting_id == 1,
    {
        SettingsStore { profile: None, next_profile_id: 1, settings: Vec::new(), next_setting_id: 1 }
    }

    /// The profile, when one was stored.
    pub fn get_doctor_profile(&self) -> (r: Result<Option<DoctorProfile>, String>)
        ensures
            r is Ok,
            r->Ok_0 == self.profile,
    {
        match &self.profile {
            Some(p) => Ok(Some(p.clone())),
            None => Ok(None),
        }
    }

    /// Updates the stored profile's editable fields, or inserts the
    /// whole submitted profile when none was stored.  Returns the
    /// row's identity.
    pub fn upsert_doctor_profile(&mut self, profile: DoctorProfile) -> (r: Result<i64, String>)
        requires
            old(self).next_profile_id < i64::MAX,
        ensures
            final(self).settings@ == old(self).settings@,
            final(self).next_setting_id == old(self).next_setting_id,
            r is Ok,
            final(self).profile is Some,
            match old(self).profile {
                Some(kept) => {
                    &&& profile_updated(final(self).profile->0, kept, profile)
                    &&& r->Ok_0 == (match kept.id {
                        Some(id) => id,
                        None => 0,
                    })
                    &&& final(self).next_profile_id == old(self).next_profile_id
                },
                None => {
                    &&& profile_inserted(
                        final(self).profile->0,
                        profile,
                        old(self).next_profile_id,
                    )
                    &&& r->Ok_0 == old(self).next_profile_id
                    &&& final(self).next_profile_id == old(self).next_profile_id + 1
                },
            },
    {
        match &self.profile {
            Some(kept) => {
                let id = match kept.id {
                    Some(id) => id,
                    None => 0,
                };
                let updated = DoctorProfile {
                    id: kept.id,
                    doctor_id: kept.doctor_id.clone(),
                    name: profile.name,
                    email: profile.email,
                    clinic_name: profile.clinic_name,
                    clinic_hours: profile.clinic_hours,
                    clinic_slogan: profile.clinic_slogan,
                    phone: profile.phone,
                    location: profile.location,
                    app_version: crate::model::clone_opt_string(&kept.app_version),
                    agreed_to_terms: Some(
                        match profile.agreed_to_terms {
                            Some(b) => b,
                            None => false,
                        },
                    ),
                    last_sync: crate::model::clone_opt_string(&kept.last_sync),
                };
                self.profile = Some(updated);
                Ok(id)
            },
            None => {
                let id = self.next_profile_id;
                let app_version = match profile.app_version {
                    Some(v) => Some(v),
                    None => Some("1.0.0".to_owned()),
                };
                let inserted = DoctorProfile {
                    id: Some(id),
                    doctor_id: profile.doctor_id,
                    name: profile.name,
                    email: profile.email,
                    clinic_name: profile.clinic_name,
                    clinic_hours: profile.clinic_hours,
                    clinic_slogan: profile.clinic_slogan,
                    phone: profile.phone,
                    location: profile.location,
                    app_version,
                    agreed_to_terms: Some(
                        match profile.agreed_to_terms {
                            Some(b) => b,
                            None => false,
                        },
                    ),
                    last_sync: None,
                };
                self.profile = Some(inserted);
                self.next_profile_id = id + 1;
                Ok(id)
            },
        }
    }

    /// All stored settings.
    pub fn get_all_settings(&self) -> (r: Result<Vec<UserSetting>, String>)
        ensures
            r is Ok,
            r->Ok_0@ == self.settings@,
    {
        let mut out: Vec<UserSetting> = Vec::new();
        let mut i: usize = 0;
        while i < self.settings.len()
            invariant
                i <= self.settings@.len(),
                out@ =~= self.settings@.take(i as int),
            decreases self.settings@.len() - i,
        {
            out.push(self.settings[i].clone());
            i = i + 1;
        }
        proof {
            assert(out@ =~= self.settings@);
        }
        Ok(out)
    }

    /// Stores one setting: the row with that key is rewritten, or a
    /// fresh row inserted.
    pub fn save_setting(&mut self, key: String, value: String, category: String) -> (r: Result<
        (),
        String,
    >)
        requires
            old(self).next_setting_id < i64::MAX,
        ensures
            final(self).profile == old(self).profile,
            final(self).next_profile_id == old(self).next_profile_id,
            r is Ok,
            match find_setting(old(self).settings@, key@) {
                Some(j) => {
                    &&& final(self).settings@ == old(self).settings@.update(
                        j,
                        UserSetting {
                            id: old(self).settings@[j].id,
                            key: old(self).settings@[j].key,
                            value: Some(value),
                            category: Some(category),
                        },
                    )
                    &&& final(self).next_setting_id == old(self).next_setting_id
                },
                None => {
                    &&& final(self).settings@.len() == old(self).settings@.len() + 1
                    &&& final(self).settings@.take(old(self).settings@.len() as int) == old(
                        self,
                    ).settings@
                    &&& final(self).settings@.last() == (UserSetting {
                        id: Some(old(self).next_setting_id),
                        key,
                        value: Some(value),
                        category: Some(category),
                    })
                    &&& final(self).next_setting_id == old(self).next_setting_id + 1
                },
            },
    {
        match find_setting_index(&self.settings, &key) {
            Some(j) => {
                let kept = self.settings[j].clone();
                self.settings.set(
                    j,
                    UserSetting {
                        id: kept.id,
                        key: kept.key,
                        value: Some(value),
                        category: Some(category),
                    },
                );
                Ok(())
            },
            None => {
                let id = self.next_setting_id;
                self.settings.push(
                    UserSetting { id: Some(id), key, value: Some(value), category: Some(category) },
                );
                self.next_setting_id = id + 1;
                proof {
                    assert(self.settings@.take(old(self).settings@.len() as int) =~= old(
                        self,
                    ).settings@);
                }
                Ok(())
            },
        }
    }

    /// Replaces every setting with the default appearance set.
    pub fn reset_all_settings(&mut self) -> (r: Result<(), String>)
        ensures
            final(self).profile == old(self).profile,
            final(self).next_profile_id == old(self).next_profile_id,
            r is Ok,
            final(self).settings@.len() == 5,
            default_setting(final(self).settings@[0], 1, "theme"@, "dark"@),
            default_setting(final(self).settings@[1], 2, "brandHsl"@, "172 49% 56%"@),
            default_setting(final(self).settings@[2], 3, "font"@, "Inter"@),
            default_setting(final(self).settings@[3], 4, "size"@, "16"@),
            default_setting(final(self).settings@[4], 5, "layoutMode"@, "vertical"@),
            final(self).next_setting_id == 6,
    {
        let mut fresh: Vec<UserSetting> = Vec::new();
        fresh.push(
            UserSetting {
                id: Some(1),
                key: "theme".to_owned(),
                value: Some("dark".to_owned()),
                category: Some("appearance".to_owned()),
            },
        );
        fresh.push(
            UserSetting {
                id: Some(2),
                key: "brandHsl".to_owned(),
                value: Some("172 49% 56%".to_owned()),
                category: Some("appearance".to_owned()),
            },
        );
        fresh.push(
            UserSetting {
                id: Some(3),
                key: "font".to_owned(),
                value: Some("Inter".to_owned()),
                category: Some("appearance".to_owned()),
            },
        );
        fresh.push(
            UserSetting {
                id: Some(4),
                key: "size".to_owned(),
                value: Some("16".to_owned()),
                category: Some("appearance".to_owned()),
            },
        );
        fresh.push(
            UserSetting {
                id: Some(5),
                key: "layoutMode".to_owned(),
                value: Some("vertical".to_owned()),
                category: Some("appearance".to_owned()),
            },
        );
        self.settings = fresh;
        self.next_setting_id = 6;
        Ok(())
    }
}

} // verus!
