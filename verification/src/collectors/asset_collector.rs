use vstd::prelude::*;
use crate::analysers::dep_analyser::{clone_strings, str_views};
use crate::models::pubspec_model::Pubspec;

verus! {

/// The asset entries a `pubspec.yaml` declares under `flutter: assets:`; none where the
/// section or the list is missing.
pub open spec fn pubspec_assets(pubspec: Pubspec) -> Seq<Seq<char>> {
    match pubspec.flutter {
        Some(f) => match f.assets {
            Some(a) => str_views(a@),
            None => seq![],
        },
        None => seq![],
    }
}

/// The asset entries a `pubspec.yaml` declares under `flutter: assets:`, in order.
pub fn declared_assets(pubspec: &Pubspec) -> (res: Vec<String>)
    ensures
        str_views(res@) == pubspec_assets(*pubspec),
{
    match &pubspec.flutter {
        Some(f) => match &f.assets {
            Some(a) => clone_strings(a),
            None => {
                let res: Vec<String> = Vec::new();
                assert(str_views(res@) =~= seq![]);
                res
            },
        },
        None => {
            let res: Vec<String> = Vec::new();
            assert(str_views(res@) =~= seq![]);
            res
        },
    }
}

} // verus!
