use p2p_autos::limits::{fair_share_window, is_overdue};
use p2p_autos::share::{
    free_id, gen_id, insert_share, spell_id, App, Registry, Share, ALPHABET, ID_LEN,
};

fn share(name: &str, conn: u64) -> Share {
    Share {
        name: name.to_string(),
        mime: "text/plain".to_string(),
        size: 3,
        conn,
    }
}

#[test]
fn main_ids_are_unambiguous() {
    let id = gen_id();
    assert_eq!(id.len(), ID_LEN);
    assert!(!id.contains(['0', 'O', '1', 'l', 'I']));
}

#[test]
fn share_ids_are_unambiguous() {
    let id = gen_id();
    assert_eq!(id.len(), ID_LEN);
    assert!(!id.contains(['0', 'O', '1', 'l', 'I']));
}

#[test]
fn ids_are_drawn_from_the_alphabet() {
    assert_eq!(ID_LEN, 8);
    let mut seen = Vec::new();
    for _ in 0..200 {
        let id = gen_id();
        assert_eq!(id.chars().count(), 8);
        assert!(id.chars().all(|c| ALPHABET.contains(c)));
        seen.push(id);
    }
    seen.sort();
    seen.dedup();
    assert_eq!(seen.len(), 200);
}

#[test]
fn ids_spell_their_draws() {
    let last = ALPHABET.chars().count() - 1;
    assert_eq!(spell_id(&vec![0, 1, 2, 25, 48, 49, last, 0]), "abcAZ29a");
}

#[test]
fn a_registry_keeps_what_it_was_given() {
    let mut r = Registry::new();
    assert!(r.find("x").is_none());
    assert!(r.claim("x".to_string(), share("one", 1)).is_ok());
    let found = r.find("x").unwrap();
    assert_eq!((found.name.as_str(), found.size, found.conn), ("one", 3, 1));
    assert_eq!(found.mime, "text/plain");
    // A taken id is left alone, and the share comes back.
    let back = r.claim("x".to_string(), share("two", 2));
    assert!(matches!(back, Err(s) if s.name == "two"));
    assert_eq!(r.find("x").unwrap().name, "one");
    assert!(r.claim("y".to_string(), share("three", 3)).is_ok());
    r.remove("x");
    assert!(r.find("x").is_none());
    assert_eq!(r.find("y").unwrap().name, "three");
    r.remove("nothing");
    assert!(r.find("y").is_some());
}

#[test]
fn shares_get_fresh_ids() {
    let mut app = App::new(256);
    let mut ids = Vec::new();
    for i in 0..50 {
        ids.push(insert_share(&mut app, share("f", i)).unwrap());
    }
    for (i, id) in ids.iter().enumerate() {
        assert_eq!(app.shares.find(id).unwrap().conn, i as u64);
    }
    assert_eq!(app.budget_chunks, 256);
    assert_eq!(app.active_downloads, 0);
}

#[test]
fn a_copy_says_the_same() {
    let c = share("f", 9).copy();
    assert_eq!((c.name.as_str(), c.mime.as_str(), c.size, c.conn), ("f", "text/plain", 3, 9));
}

#[test]
fn the_budget_is_divided() {
    assert_eq!(fair_share_window(256, 0), 4);
    assert_eq!(fair_share_window(256, 1), 4);
    assert_eq!(fair_share_window(256, 64), 4);
    assert_eq!(fair_share_window(256, 65), 3);
    assert_eq!(fair_share_window(256, 86), 2);
    assert_eq!(fair_share_window(256, 128), 2);
    assert_eq!(fair_share_window(256, 129), 1);
    assert_eq!(fair_share_window(256, 100000), 1);
    assert_eq!(fair_share_window(0, 0), 1);
    assert_eq!(fair_share_window(usize::MAX, 1), 4);
}

#[test]
fn shares_fit_the_budget() {
    for active in 1..300usize {
        let w = fair_share_window(256, active) as usize;
        assert!((1..=4).contains(&w));
        assert!(w == 1 || w * active <= 256);
        assert!(fair_share_window(256, active + 1) as usize <= w);
        assert!(fair_share_window(257, active) as usize >= w);
    }
}

#[test]
fn deadlines_are_exclusive() {
    assert!(!is_overdue(100, 150, 50));
    assert!(is_overdue(100, 151, 50));
    assert!(!is_overdue(100, 50, 0));
    assert!(is_overdue(0, u64::MAX, u64::MAX - 1));
}

#[test]
fn a_free_id_is_found_while_there_is_one() {
    let mut r = Registry::new();
    assert_eq!(free_id(&r, &mut Vec::new()).unwrap(), "aaaaaaaa");
    let mut prefix: Vec<char> = "bcdefgh".chars().collect();
    for c in ALPHABET.chars() {
        let id = free_id(&r, &mut prefix).unwrap();
        assert_eq!(id, format!("bcdefgh{c}"));
        assert!(r.claim(id, share("f", 1)).is_ok());
    }
    assert!(free_id(&r, &mut prefix).is_none());
    assert_eq!(prefix.iter().collect::<String>(), "bcdefgh");
    // A taken id is no longer free, and one that is given back is.
    let mut whole: Vec<char> = "bcdefgh2".chars().collect();
    assert!(free_id(&r, &mut whole).is_none());
    r.remove("bcdefgh2");
    assert_eq!(free_id(&r, &mut whole).unwrap(), "bcdefgh2");
    assert_eq!(free_id(&r, &mut prefix).unwrap(), "bcdefgh2");
    let mut shorter: Vec<char> = "bcdefg".chars().collect();
    assert_eq!(free_id(&r, &mut shorter).unwrap(), "bcdefgaa");
}
