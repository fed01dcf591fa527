use gameoflife::rle::{get_body_contents, parse};
use gameoflife::world::Coord;

#[test]
fn parse_empty_life() {
    let mut storage: Vec<Coord> = vec![];
    let content = "x = 0, y = 0\n";
    let parsed = parse(content, &mut storage).unwrap();
    assert_eq!(parsed.x, 0);
    assert_eq!(parsed.y, 0);
    assert_eq!(storage, vec![]);
}

#[test]
fn parse_glider() {
    let content = r#"
#C lala
#N Pattern Name
x = 3, y = 3
bo$2bo$3o!

"#;
    let mut storage: Vec<Coord> = vec![];
    let parsed = parse(content, &mut storage).unwrap();
    assert_eq!(parsed.x, 3);
    assert_eq!(parsed.y, 3);

    assert_eq!(
        storage,
        vec![
            Coord(1, 0),
            Coord(2, 1),
            Coord(0, 2),
            Coord(1, 2),
            Coord(2, 2)
        ]
    );
}

#[test]
fn parse_gosper_glider() {
    let content = r#"
        #N Gosper glider gun
#C This was the first gun discovered.
#C As its name suggests, it was discovered by Bill Gosper.
x = 36, y = 9, rule = B3/S23
24bo$22bobo$12b2o6b2o12b2o$11bo3bo4b2o12b2o$2o8bo5bo3b2o$2o8bo3bob2o4b
obo$10bo5bo7bo$11bo3bo$12b2o!
            "#;

    let mut storage: Vec<Coord> = vec![];
    let parsed = parse(content, &mut storage).unwrap();
    assert_eq!(parsed.x, 36);
    assert_eq!(parsed.y, 9);

    assert!(storage.len() > 0);
}

#[test]
fn parse_body() {
    get_body_contents(b"bo$2bo$3o\n3o!", 0).unwrap();
}
