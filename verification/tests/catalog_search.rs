use city_catalog::catalog::Catalog;
use city_catalog::catalog::CatalogError;
use city_catalog::catalog::City;

fn mk(id: u64, name: &str, ascii: &str, alts: &str, cc: &str, tz: &str) -> City {
    City {
        geonameid: id,
        name: name.to_string(),
        asciiname: ascii.to_string(),
        alternatenames: alts.to_string(),
        country_code: cc.to_string(),
        timezone: tz.to_string(),
    }
}

fn paris() -> City {
    mk(2988507, "Paris", "Paris", "Parigi,Parij", "FR", "Europe/Paris")
}

#[test]
fn paris_scenario() {
    let cat = Catalog::build(vec![paris()]).expect("build");
    let rs = cat.search("par");
    assert_eq!(rs.len(), 1);
    assert_eq!(rs[0].geonameid, 2988507);
    assert_eq!(rs[0].name, "Paris");
    assert_eq!(rs[0].timezone, "Europe/Paris");
    let none = cat.search("xyz");
    assert_eq!(none.len(), 0);
}

#[test]
fn lookup_found_and_not_found() {
    let cat = Catalog::build(vec![paris()]).expect("build");
    let c = cat.lookup(2988507).expect("present");
    assert_eq!(c.geonameid, 2988507);
    assert_eq!(c.name, "Paris");
    assert_eq!(c.asciiname, "Paris");
    assert_eq!(c.alternatenames, "Parigi,Parij");
    assert_eq!(c.country_code, "FR");
    assert_eq!(c.timezone, "Europe/Paris");
    match cat.lookup(1) {
        Err(CatalogError::NotFound) => {}
        _ => panic!("expected NotFound"),
    }
}

#[test]
fn alias_keys_resolve() {
    let cat = Catalog::build(vec![paris()]).expect("build");
    for key in ["parigi", "parij", "paris"] {
        let rs = cat.search(key);
        assert_eq!(rs.len(), 1);
        assert_eq!(rs[0].geonameid, 2988507);
    }
}

#[test]
fn case_insensitive_search() {
    let london = mk(2643743, "London", "London", "Londres,Londra", "GB", "Europe/London");
    let cat = Catalog::build(vec![paris(), london]).expect("build");
    let upper = cat.search("LON");
    let lower = cat.search("lon");
    assert_eq!(upper.len(), 1);
    assert_eq!(upper.len(), lower.len());
    for (a, b) in upper.iter().zip(lower.iter()) {
        assert_eq!(a.geonameid, b.geonameid);
    }
    let shout = cat.search("PAR");
    assert_eq!(shout.len(), 1);
    assert_eq!(shout[0].geonameid, 2988507);
}

#[test]
fn aliases_are_trimmed() {
    let rome = mk(3169070, "Rome", "Roma", " Rom ,  Rzym  ", "IT", "Europe/Rome");
    let cat = Catalog::build(vec![rome]).expect("build");
    let rs = cat.search("rzym");
    assert_eq!(rs.len(), 1);
    assert_eq!(rs[0].geonameid, 3169070);
    let rs2 = cat.search("rom");
    assert_eq!(rs2.len(), 1);
}

#[test]
fn empty_alias_pieces_are_dropped() {
    let c = mk(7, "Ax", "Ax", ",,Bx,", "ZZ", "Etc/UTC");
    let cat = Catalog::build(vec![c]).expect("build");
    assert_eq!(cat.search("bx").len(), 1);
    assert_eq!(cat.search("ax").len(), 1);
}

#[test]
fn empty_prefix_returns_all_distinct() {
    let cities = vec![
        mk(1, "Alpha", "Alpha", "", "AA", "Etc/UTC"),
        mk(2, "Beta", "Beta", "", "BB", "Etc/UTC"),
        mk(3, "Gamma", "Gamma", "", "CC", "Etc/UTC"),
    ];
    let cat = Catalog::build(cities).expect("build");
    let rs = cat.search("");
    assert_eq!(rs.len(), 3);
    let mut ids: Vec<u64> = rs.iter().map(|c| c.geonameid).collect();
    ids.sort();
    ids.dedup();
    assert_eq!(ids.len(), 3);
}

#[test]
fn results_are_capped_at_one_hundred() {
    let mut cities = Vec::new();
    for i in 0..150u64 {
        let name = format!("city{:03}", i);
        cities.push(mk(1000 + i, &name, &name, "", "ZZ", "Etc/UTC"));
    }
    let cat = Catalog::build(cities).expect("build");
    let rs = cat.search("city");
    assert_eq!(rs.len(), 100);
    let mut ids: Vec<u64> = rs.iter().map(|c| c.geonameid).collect();
    ids.sort();
    ids.dedup();
    assert_eq!(ids.len(), 100);
    let all = cat.search("");
    assert_eq!(all.len(), 100);
}

#[test]
fn shared_name_last_record_wins() {
    let a = mk(10, "Springfield", "Springfield", "", "US", "America/Chicago");
    let b = mk(20, "Springfield", "Springfield", "", "US", "America/New_York");
    let cat = Catalog::build(vec![a, b]).expect("build");
    let rs = cat.search("springfield");
    assert_eq!(rs.len(), 1);
    assert_eq!(rs[0].geonameid, 20);
    // the shadowed record stays reachable by identifier
    assert_eq!(cat.lookup(10).expect("present").geonameid, 10);
}

#[test]
fn differing_ascii_name_is_indexed() {
    let munich = mk(2867714, "München", "Munich", "Muenchen", "DE", "Europe/Berlin");
    let cat = Catalog::build(vec![munich]).expect("build");
    assert_eq!(cat.search("münchen").len(), 1);
    assert_eq!(cat.search("munich").len(), 1);
    assert_eq!(cat.search("muenchen").len(), 1);
}

#[test]
fn results_follow_key_order() {
    let cities = vec![
        mk(1, "Bravo", "Bravo", "", "AA", "Etc/UTC"),
        mk(2, "Alpha", "Alpha", "", "AA", "Etc/UTC"),
        mk(3, "Charlie", "Charlie", "", "AA", "Etc/UTC"),
    ];
    let cat = Catalog::build(cities).expect("build");
    let rs = cat.search("");
    let ids: Vec<u64> = rs.iter().map(|c| c.geonameid).collect();
    assert_eq!(ids, vec![2, 1, 3]);
}
