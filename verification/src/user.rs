use vstd::prelude::*;

verus! {

/// A user's identity, derived from the asserted display name.
/// Equality is structural over the underlying string.
#[derive(Clone)]
pub struct UserId(pub String);

impl View for UserId {
    type V = Seq<char>;

    open spec fn view(&self) -> Seq<char> {
        self.0@
    }
}

impl PartialEq for UserId {
    fn eq(&self, other: &UserId) -> (r: bool) {
        self.0 == other.0
    }
}

impl vstd::std_specs::cmp::PartialEqSpecImpl for UserId {
    open spec fn obeys_eq_spec() -> bool {
        true
    }

    open spec fn eq_spec(&self, other: &UserId) -> bool {
        self@ == other@
    }
}

/// A connected user: an identity together with a human-readable display name.
/// Immutable once constructed; cloned freely.
#[derive(Clone, PartialEq)]
pub struct User {
    pub id: UserId,
    pub display_name: String,
}

impl User {
    /// Builds a user whose identity is derived directly from the asserted
    /// display name (no normalization or collision handling).
    pub fn from_display_name(display_name: String) -> (user: User)
        ensures
            user.id@ == display_name@,
            user.display_name@ == display_name@,
    {
        let id = UserId(display_name.clone());
        User { id, display_name }
    }
}

} // verus!
