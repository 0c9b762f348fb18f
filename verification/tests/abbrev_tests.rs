use zbr::abbrev::{do_remove_vowels, shorten_unique_prefixes, unique_prefixes};

fn strings(v: &[&str]) -> Vec<String> {
    v.iter().map(|s| String::from(*s)).collect()
}

#[test]
fn test_shorten_unique() {
    let denylist: Vec<String> = Vec::new();
    let empty = shorten_unique_prefixes(&Vec::new(), &denylist);
    assert_eq!(empty.len(), 0);

    let m = shorten_unique_prefixes(&strings(&["stac", "star", "stat"]), &denylist);
    assert_eq!(m.len(), 3);
    assert_eq!(*m.get("stac").unwrap(), "sc");
    assert_eq!(*m.get("star").unwrap(), "sr");
    assert_eq!(*m.get("stat").unwrap(), "st");

    let m = shorten_unique_prefixes(&strings(&["stac", "star", "stat"]), &strings(&["sc"]));
    assert_eq!(m.len(), 3);
    assert_eq!(*m.get("stac").unwrap(), "stc");
    assert_eq!(*m.get("star").unwrap(), "str");
    assert_eq!(*m.get("stat").unwrap(), "stt");
}

#[test]
fn test_unique_prefixes_single() {
    let m = unique_prefixes(&strings(&["foo"]), &Vec::new());
    assert_eq!(m.len(), 1);
    assert_eq!(*m.get("foo").unwrap(), "f");
}

#[test]
fn test_unique_prefixes_shared_stem() {
    let m = unique_prefixes(&strings(&["stack", "start", "stats"]), &Vec::new());
    assert_eq!(*m.get("stack").unwrap(), "stac");
    assert_eq!(*m.get("start").unwrap(), "star");
    assert_eq!(*m.get("stats").unwrap(), "stat");
}

#[test]
fn test_unique_prefixes_denylist_grows_prefix() {
    let m = unique_prefixes(&strings(&["foo"]), &strings(&["f"]));
    assert_eq!(*m.get("foo").unwrap(), "fo");
}

#[test]
fn test_unique_prefixes_duplicate_falls_back() {
    let m = unique_prefixes(&strings(&["help", "help"]), &Vec::new());
    assert_eq!(*m.get("help").unwrap(), "help");
}

// Seeding the denylist with the pool itself changes nothing.
#[test]
fn test_unique_prefixes_denylist_absorption() {
    let pool = strings(&["stack", "start", "stats", "submodule"]);
    let plain = unique_prefixes(&pool, &Vec::new());
    let seeded = unique_prefixes(&pool, &pool);
    for name in ["stack", "start", "stats", "submodule"] {
        assert_eq!(*plain.get(name).unwrap(), *seeded.get(name).unwrap());
    }
}

#[test]
fn test_do_remove_vowels() {
    let r = do_remove_vowels(&strings(&["status", "add", "branch"]));
    assert_eq!(r.len(), 3);
    assert_eq!(r[0], "stts");
    // a vowel-initial name stays as it is
    assert_eq!(r[1], "add");
    assert_eq!(r[2], "brnch");
}

#[test]
fn test_do_remove_vowels_collision_keeps_both() {
    // two distinct names stripping to the same form both stay unabbreviated
    let r = do_remove_vowels(&strings(&["beat", "bet"]));
    assert_eq!(r[0], "beat");
    assert_eq!(r[1], "bet");
}
