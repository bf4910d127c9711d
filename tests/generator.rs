use cruciwordo::board::Board;
use cruciwordo::dictionary::Dictionary;
use cruciwordo::direction::{all_directions, Direction};
use cruciwordo::generator::{
    generate_board_with_dictionary, generate_with_budget, generation_step, GenerateError,
};
use cruciwordo::grid::EMPTY;
use rand::rngs::StdRng;
use rand::SeedableRng;

const WORDS: &str = "ace act add ado age ago aid aim air ale all and ant any ape apt arc are ark arm art ash ask ate awe axe bad bag ban bar bat bay bed bee beg bet bid big bin bit boa bog boo bow box boy bud bug bun bus but buy bye cab can cap car cat cob cod cog con cop cot cow coy cry cub cud cue cup cut dab dad dam day den dew did die dig dim din dip doe dog don dot dry dub due dug dye ear eat ebb eel egg ego elf elk elm emu end era err eve ewe eye fad fan far fat fax fed fee few fib fig fin fir fit fix flu fly foe fog for fox fry fun fur gab gag gal gap gas gel gem get gig gin gnu god got gum gun gut guy gym had hag ham has hat hay hem hen her hew hid him hip his hit hob hog hop hot how hub hue hug hum hut ice icy ill imp ink inn ion ire irk its ivy jab jam jar jaw jay jet jig job jog jot joy jug jut keg ken key kid kin kit lab lad lag lap law lay lea led leg let lid lie lip lit log lot low lug mad man map mar mat maw may men met mid mix mob mod mom mop mow mud mug mum nab nag nap nay net new nib nil nip nit nod nor not now nun nut oak oar oat odd ode off oft oil old one opt orb ore our out owe owl own pad pal pan par pat paw pay pea peg pen pep per pet pew pie pig pin pit ply pod pop pot pow pro pry pub pun pup put rag ram ran rap rat raw ray red rib rid rig rim rip rob rod roe rot row rub rug rum run rut rye sad sag sap sat saw say sea see set sew she shy sin sip sir sis sit six ski sky sly sob sod son sop sow soy spa spy sty sub sue sum sun sup tab tad tag tan tap tar tax tea tee ten the tic tie tin tip toe ton too top tot tow toy try tub tug two urn use van vat vet vex via vie vow wad wag war was wax way web wed wee wet who why wig win wit woe wok won woo wow yak yam yap yaw yea yen yes yet yew you zap zen zip zoo able acid aged also area army away baby back ball band bank base bath bear beat been beer bell belt best bill bird blow blue boat body bone book boot born boss both bowl bulk burn bush busy call calm came camp card care case cash cast cell chat chip city club coal coat code cold come cook cool cope copy core cost crew crop dark data date dawn dead deal dear debt deep deny desk diet dirt disc dish does done door dose down draw drew drop drug dual duke dust duty each earn ease east easy edge else even ever evil exit face fact fail fair fall farm fast fate fear feed feel feet fell felt file fill film find fine fire firm fish five flat flow food foot form fort four free from fuel full fund gain game gate gave gear gene gift girl give glad goal goes gold golf gone good gray grew grey grow gulf hair half hall hand hang hard harm hate have head hear heat held hell help here hero high hill hire hold hole holy home hope host hour huge hung hunt hurt idea inch into iron item jack jane jean john join jump jury just keen keep kent kept kick kind king knee knew know lack lady laid lake land lane last late lead left less life lift like line link list live load loan lock long look lord lose loss lost love luck made mail main make male many mark mass matt meal mean meat meet menu mere mike mile milk mill mind mine miss mode mood moon more most move much must name navy near neck need news next nice nick nine none nose note okay once only open oral over pace pack page paid pain pair palm park part pass past path peak pick pink pipe plan play plot plus poll pool poor port post pull pure push race rail rain rank rare rate read real rear rely rent rest rice rich ride ring rise risk road rock role roll roof room root rose rule rush safe said sake sale salt same sand save seat seed seek seem seen self sell send sent ship shop shot show shut sick side sign site size skin slip slow snow soft soil sold sole some song soon sort soul spot star stay step stop such suit sure take tale talk tall tank tape task team tech tell tend term test text than that them then they thin this thus till time tiny told toll tone tony took tool tour town tree trip true tune turn twin type unit upon used user vary vast very vice view vote wage wait wake walk wall want ward warm wash wave ways weak wear week well went were west what when whom wide wife wild will wind wine wing wire wise wish with wood word wore work yard yeah year your zero zone";

fn word_list() -> Vec<String> {
    WORDS.split(' ').map(|w| w.to_string()).collect()
}

fn dir(label: &str) -> Direction {
    all_directions().into_iter().find(|d| d.label() == label).expect("a table direction")
}

#[test]
fn go_on_five_by_five_stops_with_two_empty_cells() {
    let words = word_list();
    let mut rng = StdRng::seed_from_u64(7);
    let (board, placements) =
        generate_board_with_dictionary(5, 5, "GO".to_string(), &words, &mut rng)
            .expect("generation completes");
    assert_eq!(board.solution(), "GO");
    assert_eq!(board.get_empty_cells(), 2);
    assert!(board.is_filled());
    assert!(!placements.is_empty());
    for (k, p) in placements.iter().enumerate() {
        assert_eq!(p.step, k + 1);
    }
    let mut letters = 0;
    for r in 0..5 {
        for c in 0..5 {
            if board.cell(r, c) != EMPTY {
                letters += 1;
            }
        }
    }
    assert_eq!(letters, 23);
    for p in &placements {
        let d = dir(p.direction);
        for (i, ch) in p.word.chars().enumerate() {
            let r = p.row as isize + d.y_dir * i as isize;
            let c = p.col as isize + d.x_dir * i as isize;
            assert!(r >= 0 && r < 5 && c >= 0 && c < 5);
            assert_eq!(board.cell(r as usize, c as usize), ch);
        }
    }
    let placed: Vec<String> = placements.iter().map(|p| p.word.clone()).collect();
    assert_eq!(board.words(), placed);
    let mut replay = Board::new(5, 5, "GO".to_string());
    for p in &placements {
        assert!(replay.get_empty_cells() > 2);
        assert!(replay.place_word_on_board(p.row, p.col, dir(p.direction), p.word.clone()));
    }
    assert_eq!(replay.grid_string(), board.grid_string());
    for w in &placed {
        let len = w.chars().count();
        assert!((3..=5).contains(&len));
        assert!(words.iter().any(|x| x.to_uppercase() == *w));
    }
}

#[test]
fn overlapping_words_agree_on_shared_cells() {
    let words = word_list();
    let mut rng = StdRng::seed_from_u64(19);
    let (board, placements) =
        generate_board_with_dictionary(6, 6, "hello".to_string(), &words, &mut rng)
            .expect("generation completes");
    assert_eq!(board.get_empty_cells(), 5);
    let mut seen: Vec<Vec<Option<char>>> = vec![vec![None; 6]; 6];
    for p in &placements {
        let d = dir(p.direction);
        for (i, ch) in p.word.chars().enumerate() {
            let r = (p.row as isize + d.y_dir * i as isize) as usize;
            let c = (p.col as isize + d.x_dir * i as isize) as usize;
            if let Some(prev) = seen[r][c] {
                assert_eq!(prev, ch);
            }
            seen[r][c] = Some(ch);
        }
    }
    let mut distinct = board.words();
    distinct.sort();
    distinct.dedup();
    assert_eq!(distinct.len(), board.words().len());
}

#[test]
fn zero_dimension_is_rejected() {
    let words = word_list();
    let mut rng = StdRng::seed_from_u64(1);
    let r = generate_board_with_dictionary(0, 5, "GO".to_string(), &words, &mut rng);
    assert!(matches!(r, Err(GenerateError::InvalidDimensions)));
    let r = generate_board_with_dictionary(5, 0, "GO".to_string(), &words, &mut rng);
    assert!(matches!(r, Err(GenerateError::InvalidDimensions)));
}

#[test]
fn cell_count_beyond_usize_is_rejected() {
    let words = word_list();
    let mut rng = StdRng::seed_from_u64(1);
    let r = generate_board_with_dictionary(usize::MAX, 2, "GO".to_string(), &words, &mut rng);
    assert!(matches!(r, Err(GenerateError::InvalidDimensions)));
}

#[test]
fn one_cell_board_with_empty_message_has_no_usable_word() {
    let words = word_list();
    let mut rng = StdRng::seed_from_u64(1);
    let r = generate_board_with_dictionary(1, 1, String::new(), &words, &mut rng);
    assert!(matches!(r, Err(GenerateError::EmptyDictionary)));
}

#[test]
fn board_already_complete_needs_no_word() {
    let words: Vec<String> = Vec::new();
    let mut rng = StdRng::seed_from_u64(1);
    let (board, placements) =
        generate_board_with_dictionary(1, 2, "ok".to_string(), &words, &mut rng)
            .expect("nothing to place");
    assert!(placements.is_empty());
    assert_eq!(board.get_empty_cells(), 2);
}

#[test]
fn spent_budget_is_an_error() {
    let words = word_list();
    let mut rng = StdRng::seed_from_u64(2);
    let r = generate_with_budget(5, 5, "GO".to_string(), &words, &mut rng, 0);
    assert!(matches!(r, Err(GenerateError::Exhausted)));
}

#[test]
fn message_longer_than_board_is_refused_at_once() {
    let words = word_list();
    let mut rng = StdRng::seed_from_u64(2);
    let r = generate_with_budget(3, 3, "abcdefghij".to_string(), &words, &mut rng, 500);
    assert!(matches!(r, Err(GenerateError::MessageTooLong)));
    let r = generate_with_budget(2, 2, "abcdefgh".to_string(), &words, &mut rng, 500);
    assert!(matches!(r, Err(GenerateError::MessageTooLong)));
    let r = generate_with_budget(2, 2, "abc".to_string(), &words, &mut rng, 500);
    assert!(matches!(r, Err(GenerateError::EmptyDictionary)));
}

#[test]
fn generation_step_places_a_dictionary_word() {
    let mut rng = StdRng::seed_from_u64(6);
    let dictionary = Dictionary::from_words(vec!["sun".to_string()], 4, &mut rng);
    let mut board = Board::new(4, 4, String::new());
    let p = generation_step(&mut board, &dictionary, &mut rng).expect("fits on an empty board");
    assert_eq!(p.word, "SUN");
    assert_eq!(p.step, 1);
    assert!(generation_step(&mut board, &dictionary, &mut rng).is_none());
    assert_eq!(board.get_empty_cells(), 13);
}

#[test]
fn dictionary_filters_by_length_and_upper_cases() {
    let mut rng = StdRng::seed_from_u64(12);
    let items: Vec<String> =
        ["at", "cat", "Horse", "elephant", "dog", "tree", "it"].iter().map(|w| w.to_string()).collect();
    let d = Dictionary::from_words(items, 5, &mut rng);
    let mut kept = d.iterate().clone();
    kept.sort();
    assert_eq!(kept, vec!["CAT", "DOG", "HORSE", "TREE"]);
    assert_eq!(d.len(), 4);
    for _ in 0..20 {
        let w = d.get_random_word(&mut rng);
        assert!(kept.contains(&w));
    }
}

#[test]
fn dictionary_keeps_repeats_and_bounds() {
    let mut rng = StdRng::seed_from_u64(13);
    let items: Vec<String> = ["abc", "abc", "abcd", "ab"].iter().map(|w| w.to_string()).collect();
    let d = Dictionary::from_word_list(&items, 3, &mut rng);
    assert_eq!(d.iterate().clone(), vec!["ABC", "ABC"]);
}

#[test]
fn dictionary_reads_one_word_per_line() {
    let mut rng = StdRng::seed_from_u64(14);
    let d = Dictionary::from_text("cat\r\nox\nhorse\n\nlemon\n", 5, &mut rng);
    let mut kept = d.iterate().clone();
    kept.sort();
    assert_eq!(kept, vec!["CAT", "HORSE", "LEMON"]);
}
