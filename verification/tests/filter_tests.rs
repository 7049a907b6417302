use syncron::filter::Filter;

#[test]
fn test_filter() {
    assert_eq!(true, Filter::new("sport").unwrap().matches("sport"));
    assert_eq!(false, Filter::new("sport").unwrap().matches("sport/tennis"));
    assert_eq!(false, Filter::new("sport/tennis").unwrap().matches("sport"));
    assert_eq!(true, Filter::new("sport").unwrap().matches("sport"));
}

#[test]
fn test_filter_wildcard() {
    assert_eq!(true, Filter::new("+").unwrap().matches("something"));
    assert_eq!(false, Filter::new("+").unwrap().matches("something/else"));
    assert_eq!(true, Filter::new("sport/tennis/+").unwrap().matches("sport/tennis/player1"));
    assert_eq!(true, Filter::new("sport/tennis/+").unwrap().matches("sport/tennis/player2"));
    assert_eq!(
        false,
        Filter::new("sport/tennis/+").unwrap().matches("sport/tennis/player1/ranking")
    );
    assert_eq!(true, Filter::new("sport/tennis/+").unwrap().matches("sport/tennis/"));
    assert_eq!(true, Filter::new("+/+").unwrap().matches("/finance"));
    assert_eq!(true, Filter::new("/+").unwrap().matches("/finance"));
    assert_eq!(false, Filter::new("+").unwrap().matches("/finance"));
    assert_eq!(true, Filter::new("sport/+/player1").unwrap().matches("sport/tennis/player1"));
    assert_eq!(true, Filter::new("sport/+/player1").unwrap().matches("sport/football/player1"));
    assert_eq!(false, Filter::new("sport/+/player1").unwrap().matches("sport/football/player2"));
}

#[test]
fn test_filter_multilevel_wildcard() {
    assert_eq!(true, Filter::new("sport/tennis/player1/#").unwrap().matches("sport/tennis/player1"));
    assert_eq!(
        true,
        Filter::new("sport/tennis/player1/#").unwrap().matches("sport/tennis/player1/ranking")
    );
    assert_eq!(
        true,
        Filter::new("sport/tennis/player1/#")
            .unwrap()
            .matches("sport/tennis/player1/score/wimbledon")
    );
}

#[test]
fn test_filter_invalid() {
    assert!(matches!(Filter::new("sport+"), Err(_)));
    assert!(matches!(Filter::new("sp+rts"), Err(_)));
    assert!(matches!(Filter::new("sp#rt/tennis"), Err(_)));
    assert!(matches!(Filter::new("sport/tennis#"), Err(_)));
    assert!(matches!(Filter::new("sport/tennis/#/ranking"), Err(_)));
}

#[test]
fn filter_hash_alone_matches_everything() {
    let f = Filter::new("#").unwrap();
    assert!(f.matches("anything"));
    assert!(f.matches("a/b/c"));
    assert!(f.matches(""));
}

#[test]
fn filter_bad_filter_error() {
    assert_eq!(Filter::new("sport+").unwrap_err(), syncron::SyncError::BadFilter);
}
