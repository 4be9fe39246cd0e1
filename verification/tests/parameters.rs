use hb_high::deck::{DeckError, ListReader};
use hb_high::parameters::{moho_speed, read_deck, DeckFault, Factors};
use hb_high::reals::{Double, Single};

/// A deck as it is written: a blank record first, and one record for each read.
const DECK: [&str; 22] = [
    "",
    "50.0",
    "stations.ll",
    "/tmp/out.bin  # the rest is cut",
    "2 1 0",
    "1",
    "4 0 0.02 19.9",
    "5481190",
    "1",
    "144.0 0.005 10.0 0.045 0.6",
    "0.8 0.6 0.6 2.1 0.1",
    "-1 -1",
    "slip.stoch",
    "model.1d",
    "999.9",
    "-99 0.0 0.0 0.0 0.0 1",
    "-1",
    "0.0 0.0 0.1",
    "11",
    "0",
    "-1 -1 -1",
    "12",
];

fn read(lines: &[&str]) -> Result<hb_high::parameters::Deck, DeckFault> {
    read_deck(&mut ListReader::new(&lines.join("\n")))
}

fn with(line: usize, text: &'static str) -> Vec<&'static str> {
    let mut lines = DECK.to_vec();
    lines[line] = text;
    lines
}

#[test]
fn a_deck_binds_every_field() {
    let deck = read(&DECK).unwrap();
    assert_eq!(deck.stress_average, "50.0");
    assert_eq!(deck.asite, "stations.ll");
    assert_eq!(deck.outname, "/tmp/out.bin");
    assert_eq!(deck.irtype, [1, 0]);
    assert_eq!(deck.isite_amp, 1);
    assert_eq!(deck.iftt, 0);
    assert_eq!(deck.fhil, "19.9");
    assert_eq!(deck.irand, 5481190);
    assert_eq!(deck.nsite, 1);
    assert_eq!(deck.duration, "144.0");
    assert_eq!(deck.dt, "0.005");
    assert_eq!(deck.fmx, "10.0");
    assert_eq!(deck.akapp, "0.045");
    assert_eq!(deck.qfexp, "0.6");
    assert_eq!(deck.rvfac, "0.8");
    assert_eq!(deck.shal_rvfac, "0.6");
    assert_eq!(deck.deep_rvfac, "0.6");
    assert_eq!(deck.czero, "2.1");
    assert_eq!(deck.calpha, "0.1");
    assert_eq!(deck.sm, "-1");
    assert_eq!(deck.vr, "-1");
    assert_eq!(deck.slip_model, "slip.stoch");
    assert_eq!(deck.velfile, "model.1d");
    assert_eq!(deck.vsmoho, "999.9");
    assert_eq!(deck.nlskip, -99);
    assert_eq!(deck.fasig1, "0.0");
    assert_eq!(deck.fasig2, "0.0");
    assert_eq!(deck.rvsig1, "0.1");
    assert_eq!(deck.ipdur_model, 11);
    // One read of three items takes the bare zero and two of the next record.
    assert_eq!(deck.ispar_adjust, 0);
    assert_eq!(deck.targ_mag, "-1");
    assert_eq!(deck.fault_area, "-1");
    assert_eq!(deck.seek_bytes.as_deref(), Some("12"));
}

#[test]
fn a_deck_that_ends_early_is_refused() {
    let fault = read(&DECK[..21]).unwrap_err();
    assert!(matches!(
        fault,
        DeckFault::Refused(DeckError::UnexpectedEof { wanted: 1, got: 0 })
    ));
    let fault = read(&DECK[..9]).unwrap_err();
    assert!(matches!(
        fault,
        DeckFault::Refused(DeckError::UnexpectedEof { wanted: 5, got: 0 })
    ));
    assert!(matches!(
        read(&DECK[..2]).unwrap_err(),
        DeckFault::Refused(DeckError::UnexpectedEof { wanted: 1, got: 0 })
    ));
}

#[test]
fn a_field_that_is_no_number_is_refused() {
    let fault = read(&with(9, "144.0 0.005 fast 0.045 0.6")).unwrap_err();
    assert!(
        matches!(&fault, DeckFault::Refused(DeckError::BadNumber { token, kind }) if token == "fast" && *kind == "real*4")
    );
    let fault = read(&with(14, "moho")).unwrap_err();
    assert!(
        matches!(&fault, DeckFault::Refused(DeckError::BadNumber { token, kind }) if token == "moho" && *kind == "real*8")
    );
    let fault = read(&with(4, "2 1 up")).unwrap_err();
    assert!(
        matches!(&fault, DeckFault::Refused(DeckError::BadNumber { token, kind }) if token == "up" && *kind == "integer")
    );
    // A null stands for nothing that a group could take.
    let fault = read(&with(11, "-1,,")).unwrap_err();
    assert!(
        matches!(&fault, DeckFault::Refused(DeckError::BadNumber { token, .. }) if token.is_empty())
    );
}

#[test]
fn a_slash_must_not_end_a_group() {
    assert!(matches!(
        read(&with(9, "144.0 0.005 /")).unwrap_err(),
        DeckFault::Missing { item: 2 }
    ));
    // A ray that the slash leaves unread is an empty place, and that is no integer.
    assert!(
        matches!(&read(&with(4, "3 1 2 /")).unwrap_err(), DeckFault::Refused(DeckError::BadNumber { token, kind }) if token.is_empty() && *kind == "integer")
    );
    assert!(matches!(
        read(&with(4, "-1")).unwrap_err(),
        DeckFault::Missing { item: 0 }
    ));
    assert!(matches!(
        read(&with(21, "/")).unwrap_err(),
        DeckFault::Missing { item: 0 }
    ));
}

#[test]
fn the_seek_may_be_left_out() {
    let deck = read(&with(21, ",")).unwrap();
    assert_eq!(deck.seek_bytes, None);
}

#[test]
fn too_many_rays_are_refused() {
    assert_eq!(read(&with(4, "100 100*1")).unwrap().irtype.len(), 100);
    assert!(matches!(
        read(&with(4, "101 101*1")).unwrap_err(),
        DeckFault::TooManyRays { count: 101 }
    ));
    assert!(read(&with(4, "0")).unwrap().irtype.is_empty());
}

#[test]
fn factors_below_minus_one_are_left_to_the_program() {
    let single = |x: f32| Single(x.to_bits());
    let given = |x: f32| Factors {
        rvfac: single(x),
        shal_rvfac: single(x),
        deep_rvfac: single(x),
        czero: single(x),
        calpha: single(x),
    };
    // Merely negative is not enough.
    assert_eq!(given(-0.5).resolve(), given(-0.5));
    assert_eq!(given(-1.0).resolve(), given(-1.0));
    assert_eq!(
        given(-1.5).resolve(),
        Factors {
            rvfac: single(0.8),
            shal_rvfac: single(0.6),
            deep_rvfac: single(0.6),
            czero: single(2.0),
            calpha: single(0.1),
        }
    );
}

#[test]
fn a_moho_that_is_not_positive_is_out_of_reach() {
    let double = |x: f64| Double(x.to_bits());
    assert_eq!(moho_speed(double(4.5)), double(4.5));
    assert_eq!(moho_speed(double(0.0)), double(999.9));
    assert_eq!(moho_speed(double(-1.0)), double(999.9));
}
