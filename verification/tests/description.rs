use wavegen::description::{rectangular, sine, triangle};

#[test]
fn sine_description_is_exact() {
    assert_eq!(sine("440", "0"), "[Sine] Freq: 440, Phase: 0");
}

#[test]
fn rectangular_description_is_exact() {
    assert_eq!(
        rectangular("2", "0.5", "0.25"),
        "[Rectangular] Freq: 2, Phase: 0.5, DutyCycle: 0.25"
    );
}

#[test]
fn triangle_description_is_exact() {
    assert_eq!(triangle("1.5"), "[Triangle] Freq: 1.5");
}

#[test]
fn sine_description_names_the_wave_and_its_parameters() {
    let frequency = 440.5f32;
    let phase = -1.25f32;
    let text = sine(&frequency.to_string(), &phase.to_string());
    assert!(text.contains("Sine"));
    assert!(text.contains("440.5"));
    assert!(text.contains("-1.25"));
}

#[test]
fn rectangular_description_names_the_wave_and_its_parameters() {
    let text = rectangular(&100f32.to_string(), &0.75f32.to_string(), &0.125f32.to_string());
    assert!(text.contains("Rectangular"));
    assert!(text.contains("100"));
    assert!(text.contains("0.75"));
    assert!(text.contains("0.125"));
}

#[test]
fn triangle_description_names_the_wave_and_its_parameter() {
    let text = triangle(&2.5f32.to_string());
    assert!(text.contains("Triangle"));
    assert!(text.contains("2.5"));
}

#[test]
fn description_takes_empty_and_unusual_texts() {
    assert_eq!(sine("", ""), "[Sine] Freq: , Phase: ");
    assert_eq!(triangle("NaN"), "[Triangle] Freq: NaN");
    assert_eq!(rectangular("inf", "-0", "1e3"), "[Rectangular] Freq: inf, Phase: -0, DutyCycle: 1e3");
}
