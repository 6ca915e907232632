use tent::html::content::Content;
use tent::html::parser::BuilderNode;
use tent::lexer::is_space;
use tent::tree::build_forest;
use tent::util::camelcase_to_dashed;

#[test]
fn white_space_is_the_white_space_of_unicode() {
    for code in 0..=0x10ffffu32 {
        if let Some(c) = char::from_u32(code) {
            assert_eq!(is_space(c), c.is_whitespace(), "{:?}", c);
        }
    }
}

#[test]
fn every_character_is_dashed_by_the_rule() {
    for code in 0..=0x10ffffu32 {
        if let Some(c) = char::from_u32(code) {
            let expected = if c.is_uppercase() {
                let mut text = String::from("-");
                text.extend(c.to_lowercase());
                text
            } else {
                c.to_string()
            };
            assert_eq!(camelcase_to_dashed(&c.to_string()), expected, "{:?}", c);
        }
    }
}

/// The trees of lines with the given levels, built the plain way: each line
/// is put under the nearest line before it that is less indented.
fn by_parents(levels: &[usize]) -> Vec<Content> {
    fn tree(levels: &[usize], children: &[Vec<usize>], i: usize) -> Content {
        Content::new_element(
            format!("n{}", i),
            vec![format!("l{}", levels[i])],
            vec![],
            children[i].iter().map(|&child| tree(levels, children, child)).collect(),
        )
    }
    let mut children = vec![Vec::new(); levels.len()];
    let mut roots = Vec::new();
    for i in 0..levels.len() {
        match (0..i).rev().find(|&j| levels[j] < levels[i]) {
            Some(parent) => children[parent].push(i),
            None => roots.push(i),
        }
    }
    roots.iter().map(|&root| tree(levels, &children, root)).collect()
}

#[test]
fn every_line_is_the_child_of_the_nearest_shallower_line_before_it() {
    let mut count = 0;
    for length in 0..=7usize {
        for code in 0..4usize.pow(length as u32) {
            let levels: Vec<usize> = (0..length).map(|i| (code / 4usize.pow(i as u32)) % 4).collect();
            let nodes: Vec<BuilderNode> = levels
                .iter()
                .enumerate()
                .map(|(i, &level)| BuilderNode::Tag {
                    level,
                    tag: format!("n{}", i),
                    class_names: vec![format!("l{}", level)],
                    properties: vec![],
                    children: vec![],
                })
                .collect();
            assert_eq!(build_forest(nodes), Ok(by_parents(&levels)), "{:?}", levels);
            count += 1;
        }
    }
    assert_eq!(count, 21845);
}

#[test]
fn the_first_line_under_a_leaf_is_reported() {
    for length in 0..=6usize {
        for code in 0..6usize.pow(length as u32) {
            let lines: Vec<(usize, bool)> =
                (0..length).map(|i| (code / 6usize.pow(i as u32)) % 6).map(|d| (d / 2, d % 2 == 0)).collect();
            let nodes: Vec<BuilderNode> = lines
                .iter()
                .map(|&(level, holds)| {
                    if holds {
                        BuilderNode::Tag {
                            level,
                            tag: "t".to_string(),
                            class_names: vec![],
                            properties: vec![],
                            children: vec![],
                        }
                    } else {
                        BuilderNode::Text { level, text: "x".to_string() }
                    }
                })
                .collect();
            let misplaced = (1..length).find(|&i| !lines[i - 1].1 && lines[i].0 > lines[i - 1].0);
            match (build_forest(nodes), misplaced) {
                (Err(found), Some(expected)) => assert_eq!(found, expected, "{:?}", lines),
                (Ok(_), None) => {}
                (built, expected) => panic!("{:?}: {:?}, {:?}", lines, built, expected),
            }
        }
    }
}
